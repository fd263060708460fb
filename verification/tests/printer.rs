use inet::parser::{def, Def, Term};
use inet::printer::{print, print_term};

fn bare(name: &str) -> Term<'_> {
    Term { name: name.as_bytes(), ports: None }
}

fn with<'a>(name: &'a str, ports: Vec<Term<'a>>) -> Term<'a> {
    Term { name: name.as_bytes(), ports: Some(ports) }
}

fn sample() -> Vec<Def<'static>> {
    vec![
        Def::Agent(vec![("Add".as_bytes(), 2), ("S".as_bytes(), 1), ("Z".as_bytes(), 0)]),
        Def::Agent(vec![("_big".as_bytes(), usize::MAX)]),
        Def::Rule(
            with("Add", vec![bare("x"), bare("y")]),
            with("S", vec![with("f", vec![]), bare("_z9")]),
        ),
        Def::Eq(with("Add", vec![with("S", vec![bare("Z")]), bare("o")]), bare("S")),
        Def::Eq(bare("a"), with("b", vec![])),
        Def::Agent(vec![("E".as_bytes(), 10)]),
    ]
}

#[test]
fn print_writes_one_definition_per_line() {
    let text = print(&sample());
    let expected = format!(
        "#agent Add:2,S:1,Z:0\n#agent _big:{}\n#rule Add(x,y)><S(f(),_z9)\nAdd(S(Z),o)=S\na=b()\n#agent E:10",
        usize::MAX
    );
    assert_eq!(String::from_utf8(text).unwrap(), expected);
    assert_eq!(print(&[]), Vec::<u8>::new());
    assert_eq!(print(&[Def::Agent(vec![("A".as_bytes(), 0)])]), b"#agent A:0".to_vec());
    assert_eq!(print(&[Def::Agent(vec![("A".as_bytes(), 907)])]), b"#agent A:907".to_vec());
}

#[test]
fn print_term_keeps_the_empty_list_apart_from_no_list() {
    assert_eq!(print_term(&bare("f")), b"f".to_vec());
    assert_eq!(print_term(&with("f", vec![])), b"f()".to_vec());
    assert_eq!(print_term(&with("f", vec![bare("a")])), b"f(a)".to_vec());
    assert_eq!(
        print_term(&with("f", vec![bare("a"), with("g", vec![bare("b"), bare("c")])])),
        b"f(a,g(b,c))".to_vec()
    );
}

#[test]
fn what_is_printed_reads_back_as_it_was() {
    let defs = sample();
    let text = print(&defs);
    assert_eq!(def(&text), Ok(("".as_bytes(), sample())));
    for i in 0..defs.len() {
        for j in i + 1..=defs.len() {
            let part = &defs[i..j];
            let text = print(part);
            let (rest, read) = def(&text).unwrap();
            assert_eq!(rest, "".as_bytes());
            assert_eq!(read.as_slice(), part);
        }
    }
}

#[test]
fn what_was_read_prints_to_a_text_that_reads_the_same() {
    let source = "#agent Add:2, Z: 1 , E :0\n#agent A:2\r\nA(c)=A(r)  #rule A ( x , y ) >< B";
    let (rest, defs) = def(source.as_bytes()).unwrap();
    assert_eq!(rest, "".as_bytes());
    let text = print(&defs);
    assert_eq!(
        String::from_utf8(text.clone()).unwrap(),
        "#agent Add:2,Z:1,E:0\n#agent A:2\nA(c)=A(r)\n#rule A(x,y)><B"
    );
    let (rest, again) = def(&text).unwrap();
    assert_eq!(rest, "".as_bytes());
    assert_eq!(again, defs);
}

#[test]
fn names_that_are_no_identifiers_do_not_read_back() {
    // The round trip is owed for identifiers only.
    let odd = vec![Def::Eq(bare("a b"), bare("c"))];
    let text = print(&odd);
    assert_eq!(text, b"a b=c".to_vec());
    assert_ne!(def(&text).map(|(_, defs)| defs), Ok(odd));
    // An agent definition without a declaration has no source form.
    let empty = vec![Def::Agent(vec![])];
    assert!(def(&print(&empty)).is_err());
}
