use inet::parser::{def, Def, ParseError, Term};
use nom::branch::alt;
use nom::bytes::complete::tag;
use nom::character::complete::{alpha1, alphanumeric1, digit1, multispace0};
use nom::combinator::{opt, recognize};
use nom::error::{Error, ErrorKind};
use nom::multi::{many0, many1, separated_list0, separated_list1};
use nom::sequence::{delimited, pair, preceded, tuple};
use nom::IResult;

#[derive(Debug, PartialEq)]
struct StrTerm<'a> {
    name: &'a str,
    ports: Option<Vec<StrTerm<'a>>>,
}

#[derive(Debug, PartialEq)]
enum StrDef<'a> {
    Agent(Vec<(&'a str, usize)>),
    Rule(StrTerm<'a>, StrTerm<'a>),
    Eq(StrTerm<'a>, StrTerm<'a>),
}

fn nom_identifier(input: &str) -> IResult<&str, &str> {
    recognize(pair(alt((alpha1, tag("_"))), many0(alt((alphanumeric1, tag("_"))))))(input)
}

fn comma(input: &str) -> IResult<&str, &str> {
    delimited(multispace0, tag(","), multispace0)(input)
}

fn nom_term(input: &str) -> IResult<&str, StrTerm<'_>> {
    let (input, name) = nom_identifier(input)?;
    let (input, ports) = opt(delimited(
        tuple((multispace0, tag("("), multispace0)),
        separated_list0(comma, nom_term),
        preceded(multispace0, tag(")")),
    ))(input)?;
    Ok((input, StrTerm { name, ports }))
}

fn nom_atom(input: &str) -> IResult<&str, (&str, usize)> {
    let (input, name) = nom_identifier(input)?;
    let (input, _) = delimited(multispace0, tag(":"), multispace0)(input)?;
    let (input, arity) = digit1(input)?;
    match arity.parse() {
        Ok(arity) => Ok((input, (name, arity))),
        Err(_) => Err(nom::Err::Failure(Error::new(input, ErrorKind::TooLarge))),
    }
}

fn nom_agent_def(input: &str) -> IResult<&str, StrDef<'_>> {
    let (input, _) = delimited(multispace0, tag("#agent"), multispace0)(input)?;
    let (input, atoms) = separated_list1(comma, nom_atom)(input)?;
    Ok((input, StrDef::Agent(atoms)))
}

fn nom_rule_def(input: &str) -> IResult<&str, StrDef<'_>> {
    let (input, _) = delimited(multispace0, tag("#rule"), multispace0)(input)?;
    let (input, lhs) = nom_term(input)?;
    let (input, _) = delimited(multispace0, tag("><"), multispace0)(input)?;
    let (input, rhs) = nom_term(input)?;
    Ok((input, StrDef::Rule(lhs, rhs)))
}

fn nom_eq_def(input: &str) -> IResult<&str, StrDef<'_>> {
    let (input, lhs) = delimited(multispace0, nom_term, multispace0)(input)?;
    let (input, _) = delimited(multispace0, tag("="), multispace0)(input)?;
    let (input, rhs) = nom_term(input)?;
    Ok((input, StrDef::Eq(lhs, rhs)))
}

fn nom_def(input: &str) -> IResult<&str, Vec<StrDef<'_>>> {
    many1(alt((nom_agent_def, nom_rule_def, nom_eq_def)))(input)
}

fn term_of<'a>(t: &StrTerm<'a>) -> Term<'a> {
    Term {
        name: t.name.as_bytes(),
        ports: t.ports.as_ref().map(|ports| ports.iter().map(term_of).collect()),
    }
}

fn def_of<'a>(d: &StrDef<'a>) -> Def<'a> {
    match d {
        StrDef::Agent(atoms) => Def::Agent(atoms.iter().map(|(n, a)| (n.as_bytes(), *a)).collect()),
        StrDef::Rule(l, r) => Def::Rule(term_of(l), term_of(r)),
        StrDef::Eq(l, r) => Def::Eq(term_of(l), term_of(r)),
    }
}

fn expected(input: &str) -> Result<(Vec<u8>, Vec<Def<'_>>), ParseError> {
    match nom_def(input) {
        Ok((rest, defs)) => Ok((rest.as_bytes().to_vec(), defs.iter().map(def_of).collect())),
        Err(nom::Err::Failure(e)) => {
            assert_eq!(e.code, ErrorKind::TooLarge);
            Err(ParseError::TooLarge)
        }
        Err(_) => Err(ParseError::NoMatch),
    }
}

fn check(input: &str) {
    let got = def(input.as_bytes()).map(|(rest, defs)| (rest.to_vec(), defs));
    assert_eq!(got, expected(input), "input: {:?}", input);
}

#[test]
fn agrees_with_the_combinator_grammar_on_samples() {
    let samples = [
        "",
        " ",
        "#agent Add:2, Z: 1 , E :0\n#agent A:2\r\nA(c)=A(r)",
        "#agent A:1",
        "#agent A:1,",
        "#agent A:1 , B",
        "#agent A:1 , B:",
        "#agent A:1 , B:2x",
        "#agent A:99999999999999999999",
        "#agent A:1, B:99999999999999999999",
        "#agent A:18446744073709551615",
        "#agent A:18446744073709551616",
        "#agent A:000000000000000000000000000001",
        "#agent",
        "#agent :1",
        "#agentA:1",
        "# agent A:1",
        "#rule a >< b",
        "#rule a><b",
        "#rule a > < b",
        "#rule a(b,c(d)) >< e()",
        "#rule a(b,c(d) >< e()",
        "#rule >< e",
        "a = b",
        "a=b",
        "  a  =  b  ",
        "a = b c = d",
        "a = b\n#rule c >< d\n#agent E:3\n",
        "a(b , c) = d( e,f ,g)",
        "a( b) = c",
        "A( c )",
        "a ( b , c ) = d (\n)",
        "a ( b = c",
        "a = b\n(c)",
        "#rule a (b) >< c ( d ( e ) )",
        "a(b ) = c",
        "a(b,) = c",
        "a() = b()",
        "a(()) = b",
        "a = (b)",
        "a = b(",
        "a = b)",
        "a b",
        "a =",
        "= a",
        "_a = __ _1 = a_1",
        "1a = b",
        "a = 1b",
        "é = a",
        "a = é",
        "a = bé",
        "a\t=\rb\n",
        "a = b #agent C:99999999999999999999 d = e",
        "a = b #agent C:x d = e",
        "a = b #rule c d = e",
        "x(y(z(w(v())))) = x(y(z(w(v()))",
    ];
    for input in samples {
        check(input);
    }
}

#[test]
fn agrees_with_the_combinator_grammar_on_short_texts() {
    let alphabet = ['a', '1', '_', ' ', '(', ')', ',', '=', '#', ':', '>', '<'];
    let mut texts = vec![String::new()];
    for _ in 0..4 {
        let mut longer = Vec::new();
        for t in &texts {
            for c in alphabet {
                let mut s = t.clone();
                s.push(c);
                longer.push(s);
            }
        }
        for t in &longer {
            check(t);
            check(&format!("a{}", t));
            check(&format!("#rule a{}", t));
            check(&format!("#agent a:1{}", t));
            check(&format!("a(b{}", t));
            check(&format!("a=b {}", t));
        }
        texts = longer;
    }
}
