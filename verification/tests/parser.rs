use inet::parser::{agent_def, agent_def_atom, def, eq_def, identifier, rule_def, term};
use inet::parser::{Def, ParseError, Term};
use inet::syntax::{statement, Statement};

fn bare(name: &str) -> Term<'_> {
    Term { name: name.as_bytes(), ports: None }
}

fn with<'a>(name: &'a str, ports: Vec<Term<'a>>) -> Term<'a> {
    Term { name: name.as_bytes(), ports: Some(ports) }
}

#[test]
fn parser_parser_multiline_statement_test() {
    let result = def("#agent Add:2, Z: 1 , E :0\n#agent A:2\r\nA(c)=A(r)".as_bytes());
    assert_eq!(
        result,
        Ok((
            "".as_bytes(),
            vec![
                Def::Agent(vec![("Add".as_bytes(), 2), ("Z".as_bytes(), 1), ("E".as_bytes(), 0)]),
                Def::Agent(vec![("A".as_bytes(), 2)]),
                Def::Eq(
                    Term {
                        name: "A".as_bytes(),
                        ports: Some(vec![Term { name: "c".as_bytes(), ports: None }]),
                    },
                    Term {
                        name: "A".as_bytes(),
                        ports: Some(vec![Term { name: "r".as_bytes(), ports: None }]),
                    },
                )
            ]
        ))
    );
}

#[test]
fn syntax_parser_multiline_statement_test() {
    let result = statement("#agent Add:2, Z: 1 , E :0\n#agent A:2\r\nA(c)=A(r)".as_bytes());
    assert_eq!(
        result,
        Ok((
            "".as_bytes(),
            vec![
                Statement::AgentDef(vec![
                    ("Add".as_bytes(), 2),
                    ("Z".as_bytes(), 1),
                    ("E".as_bytes(), 0)
                ]),
                Statement::AgentDef(vec![("A".as_bytes(), 2)]),
                Statement::EqDef(
                    Term {
                        name: "A".as_bytes(),
                        ports: Some(vec![Term { name: "c".as_bytes(), ports: None }]),
                    },
                    Term {
                        name: "A".as_bytes(),
                        ports: Some(vec![Term { name: "r".as_bytes(), ports: None }]),
                    },
                )
            ]
        ))
    );
}

#[test]
fn identifier_takes_letters_digits_underscores() {
    assert_eq!(identifier(b"abc_1 rest"), Ok((" rest".as_bytes(), "abc_1".as_bytes())));
    assert_eq!(identifier(b"_x"), Ok(("".as_bytes(), "_x".as_bytes())));
    assert_eq!(identifier(b"__"), Ok(("".as_bytes(), "__".as_bytes())));
    assert_eq!(identifier(b"Z"), Ok(("".as_bytes(), "Z".as_bytes())));
    assert_eq!(identifier(b"9a"), Err(ParseError::NoMatch));
    assert_eq!(identifier(b""), Err(ParseError::NoMatch));
    assert_eq!(identifier(b" a"), Err(ParseError::NoMatch));
    assert_eq!(identifier("é".as_bytes()), Err(ParseError::NoMatch));
    assert_eq!(identifier("aé".as_bytes()), Ok(("é".as_bytes(), "a".as_bytes())));
}

#[test]
fn term_without_list_differs_from_empty_list() {
    assert_eq!(term(b"f"), Ok(("".as_bytes(), bare("f"))));
    assert_eq!(term(b"f()"), Ok(("".as_bytes(), with("f", vec![]))));
    assert_ne!(term(b"f").unwrap().1, term(b"f()").unwrap().1);
}

#[test]
fn term_nests_and_allows_space_around_its_punctuation() {
    assert_eq!(
        term(b"f(g(x , y),h)z"),
        Ok(("z".as_bytes(), with("f", vec![with("g", vec![bare("x"), bare("y")]), bare("h")])))
    );
    assert_eq!(term(b"A( c )"), Ok(("".as_bytes(), with("A", vec![bare("c")]))));
    assert_eq!(term(b"f( a)"), Ok(("".as_bytes(), with("f", vec![bare("a")]))));
    assert_eq!(term(b"f(a )"), Ok(("".as_bytes(), with("f", vec![bare("a")]))));
    assert_eq!(term(b"f (a)"), Ok(("".as_bytes(), with("f", vec![bare("a")]))));
    assert_eq!(
        term(b"f \t(\n a\r\n,\tg ( ) , b\n) rest"),
        Ok((" rest".as_bytes(), with("f", vec![bare("a"), with("g", vec![]), bare("b")])))
    );
    assert_eq!(term(b"f( )"), Ok(("".as_bytes(), with("f", vec![]))));
    assert_eq!(term(b"f ( ) "), Ok((" ".as_bytes(), with("f", vec![]))));
}

#[test]
fn a_list_that_is_not_closed_leaves_the_bare_name() {
    assert_eq!(term(b"f(a,)"), Ok(("(a,)".as_bytes(), bare("f"))));
    assert_eq!(term(b"f(a"), Ok(("(a".as_bytes(), bare("f"))));
    assert_eq!(term(b"f (a"), Ok((" (a".as_bytes(), bare("f"))));
    assert_eq!(term(b"f ( a b )"), Ok((" ( a b )".as_bytes(), bare("f"))));
    assert_eq!(term(b"f  x"), Ok(("  x".as_bytes(), bare("f"))));
    assert_eq!(term(b"(a)"), Err(ParseError::NoMatch));
    assert_eq!(term(b" f"), Err(ParseError::NoMatch));
}

#[test]
fn agent_atom_reads_name_and_arity() {
    assert_eq!(agent_def_atom(b"Add:2,"), Ok((",".as_bytes(), ("Add".as_bytes(), 2))));
    assert_eq!(agent_def_atom(b"E \t:\n007x"), Ok(("x".as_bytes(), ("E".as_bytes(), 7))));
    assert_eq!(agent_def_atom(b"E:"), Err(ParseError::NoMatch));
    assert_eq!(agent_def_atom(b"E 2"), Err(ParseError::NoMatch));
    assert_eq!(agent_def_atom(b":2"), Err(ParseError::NoMatch));
}

#[test]
fn arity_must_fit_in_a_machine_word() {
    let largest = format!("A:{}", usize::MAX);
    assert_eq!(
        agent_def_atom(largest.as_bytes()),
        Ok(("".as_bytes(), ("A".as_bytes(), usize::MAX)))
    );
    let too_large = format!("A:{}0", usize::MAX);
    assert_eq!(agent_def_atom(too_large.as_bytes()), Err(ParseError::TooLarge));
    assert_eq!(agent_def_atom(b"A:99999999999999999999999999"), Err(ParseError::TooLarge));
    assert_eq!(agent_def(b"#agent A:1, B:99999999999999999999999999"), Err(ParseError::TooLarge));
    assert_eq!(def(b"x=y #agent B:99999999999999999999999999"), Err(ParseError::TooLarge));
    assert_eq!(
        statement(b"x=y #agent B:99999999999999999999999999"),
        Err(ParseError::TooLarge)
    );
}

#[test]
fn agent_def_needs_one_declaration() {
    assert_eq!(
        agent_def(b" #agent A:1 , B:2 , c"),
        Ok((" , c".as_bytes(), Def::Agent(vec![("A".as_bytes(), 1), ("B".as_bytes(), 2)])))
    );
    assert_eq!(agent_def(b"#agent"), Err(ParseError::NoMatch));
    assert_eq!(agent_def(b"#agentA:1"), Ok(("".as_bytes(), Def::Agent(vec![("A".as_bytes(), 1)]))));
    assert_eq!(agent_def(b"agent A:1"), Err(ParseError::NoMatch));
}

#[test]
fn rule_def_reads_two_terms() {
    assert_eq!(
        rule_def(b"#rule Add(x, y) >< S(z)\n"),
        Ok((
            "\n".as_bytes(),
            Def::Rule(with("Add", vec![bare("x"), bare("y")]), with("S", vec![bare("z")]))
        ))
    );
    assert_eq!(rule_def(b"#rule a > < b"), Err(ParseError::NoMatch));
    assert_eq!(rule_def(b"#rule a ><"), Err(ParseError::NoMatch));
}

#[test]
fn eq_def_reads_two_terms() {
    assert_eq!(eq_def(b"  a = b c"), Ok((" c".as_bytes(), Def::Eq(bare("a"), bare("b")))));
    assert_eq!(eq_def(b"a b"), Err(ParseError::NoMatch));
    assert_eq!(eq_def(b"a ="), Err(ParseError::NoMatch));
}

#[test]
fn def_needs_one_definition_and_leaves_the_rest() {
    assert_eq!(def(b""), Err(ParseError::NoMatch));
    assert_eq!(def(b"?"), Err(ParseError::NoMatch));
    assert_eq!(
        def(b"#rule a >< b x = y ?"),
        Ok((" ?".as_bytes(), vec![Def::Rule(bare("a"), bare("b")), Def::Eq(bare("x"), bare("y"))]))
    );
    assert_eq!(
        statement(b"#rule a >< b x = y ?"),
        Ok((
            " ?".as_bytes(),
            vec![Statement::RuleDef(bare("a"), bare("b")), Statement::EqDef(bare("x"), bare("y"))]
        ))
    );
}

#[test]
fn a_copy_of_a_term_is_the_same_term() {
    let t = with("f", vec![bare("a"), with("g", vec![with("h", vec![]), bare("c")])]);
    let copy = t.clone();
    assert_eq!(copy, t);
    let (_, defs) = def(b"#agent A:1 f(x)=g #rule a >< b").unwrap();
    assert_eq!(defs.clone(), defs);
}
