use solasm::parse;
use solasm::pretty;

fn assert_print_quine(program: &str) {
    let block = parse(program).unwrap();
    let s = pretty::format(&block);
    if s != program {
        println!("{}", s);
        panic!("source doesn't line up with output");
    }
}

#[test]
fn pretty_it_writes_braces() {
    let program = "{\n  let (i, j) := 0\n  j\n  k\n}";
    assert_print_quine(program);
}

#[test]
fn pretty_it_writes_functions() {
    let mut program;

    program = "{ function frobinate(i, j) { } }";
    assert_print_quine(program);

    program = "{\n  function frobinate(i, j) {\n    i\n    j\n    k\n  }\n  let frobbed := frobinate(x, y)\n}";
    assert_print_quine(program);

    program = "{\n  function frobinate(i, j) {\n    i\n    frobinate(j, k)\n    k\n  }\n  let frobbed := frobinate(x, y)\n}";
    assert_print_quine(program);
}

#[test]
fn it_writes_switches() {
    let mut program;
    program = "{ switch i case 0: {\n  i\n  j\n  k\n} case 1: { foo } default: { } }";
    assert_print_quine(program);

    program = "{\n  switch i\n  case 0: {\n    i\n    j\n    k\n  }\n  case 1: { foo }\n  default: { }\n  i\n}";
    assert_print_quine(program);
}

#[test]
fn it_writes_for_loops() {
    let program = "{ for { let i := 0 } lt(i, 5) { i := add(i, 1) } {\n  i\n  j\n  k\n} }";
    assert_print_quine(program);
}

#[test]
fn it_writes_sub_assemblies() {
    let program = "{ assembly fnord { for { let i := 0 } lt(i, 5) { i := add(i, 1) } {\n  i\n  j\n  k\n} } }";
    assert_print_quine(program);
}

#[test]
fn it_writes_literals_back_in_grammar_syntax() {
    assert_print_quine("{\n  let x := 0xff\n  let y := hex\"ff11ffff\"\n  let z := \"some text\"\n  let w := 0x0\n}");
    assert_print_quine("{ mstore(0x40, 115792089237316195423570985008687907853269984665640564039457584007913129639935) }");
}

#[test]
fn it_breaks_a_three_statement_body_onto_lines() {
    let block = parse("{ function frobinate(i, j) { i j k } }").unwrap();
    assert_eq!(pretty::format(&block), "{ function frobinate(i, j) {\n  i\n  j\n  k\n} }");
}

#[test]
fn it_writes_returns_and_canonicalizes_layout() {
    let block = parse("{function f(a)->(b,c){b:=a c:=0x0A}}").unwrap();
    assert_eq!(pretty::format(&block), "{ function f(a) -> (b, c) {\n  b := a\n  c := 0xa\n} }");
}

#[test]
fn it_round_trips_the_declaration_example() {
    let program = "{ let (i, j) := 0\n  j\n  k\n}";
    let block = parse(program).unwrap();
    assert_eq!(block.node.statements.len(), 3);
    assert_eq!(pretty::format(&block), "{\n  let (i, j) := 0\n  j\n  k\n}");
}
