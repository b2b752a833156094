use solasm::rules;
use solasm::parse;
use solasm::ast::{Statement, Expression, Literal, ControlOp, DecNumber, HexLiteral, HexNumber, NodeIds};

#[test]
fn it_parses_literals() {
    assert_eq!(rules::hex_number("0xFF").unwrap().node.uint.limbs, [255, 0, 0, 0]);
    assert_eq!(rules::dec_number("10").unwrap().node.uint.limbs, [10, 0, 0, 0]);
    assert_eq!(rules::string_literal("\"10\"").unwrap().node.string, "10".to_string());
    assert_eq!(rules::hex_literal("hex\"FF11FFFF\"").unwrap().node.bytes, vec![255, 17, 255, 255]);
    assert_eq!(rules::hex_literal("hex'FF11FFFF'").unwrap().node.bytes, vec![255, 17, 255, 255]);
}

#[test]
fn it_rejects_bad_hex_literals() {
    assert!(rules::hex_literal("hex\"FF1\"").is_err());
    assert!(rules::hex_literal("hex\"FG\"").is_err());
    assert!(rules::hex_literal("hex\"FF'").is_err());
}

#[test]
fn it_parses_large_numbers_and_rejects_overflow() {
    let max = "115792089237316195423570985008687907853269984665640564039457584007913129639935";
    assert_eq!(rules::dec_number(max).unwrap().node.uint.limbs, [u64::MAX; 4]);
    let over = "115792089237316195423570985008687907853269984665640564039457584007913129639936";
    assert!(rules::dec_number(over).is_err());
    let hex_max = format!("0x{}", "f".repeat(64));
    assert_eq!(rules::hex_number(&hex_max).unwrap().node.uint.limbs, [u64::MAX; 4]);
    let hex_over = format!("0x1{}", "0".repeat(64));
    assert!(rules::hex_number(&hex_over).is_err());
    let padded = format!("0x{}1", "0".repeat(70));
    assert_eq!(rules::hex_number(&padded).unwrap().node.uint.limbs, [1, 0, 0, 0]);
}

#[test]
fn it_ignores_comments() {
    assert_eq!(rules::hex_number("/* hex number */ 0xFF").unwrap().node.uint.limbs, [255, 0, 0, 0]);
    assert_eq!(rules::hex_number("// hex number\n 0xFF").unwrap().node.uint.limbs, [255, 0, 0, 0]);
    assert!(rules::hex_number("/* unterminated 0xFF").is_err());
}

#[test]
fn it_parses_identifiers() {
    assert_eq!(rules::identifier("foo").unwrap().node.symbol, "foo");
    assert_eq!(rules::identifier("$foo").unwrap().node.symbol, "$foo");
    assert_eq!(rules::identifier("$foo_").unwrap().node.symbol, "$foo_");
    assert!(rules::identifier("1foo").is_err());
    assert!(rules::identifier("let").is_err());
}

#[test]
fn it_parses_statements() {
    match rules::statement("foo").unwrap().node {
        Statement::Expression(e) => match e.node {
            Expression::Identifier(i) => assert_eq!(i.node.symbol, "foo"),
            _ => panic!("not an identifier"),
        },
        _ => panic!("not an expression"),
    }
    match rules::statement("break").unwrap().node {
        Statement::ControlOp(o) => assert!(matches!(o.node, ControlOp::Break())),
        _ => panic!("not a control op"),
    }
    match rules::expression("0x10").unwrap().node {
        Expression::Literal(l) => assert!(matches!(l.node, Literal::HexNumber(_))),
        _ => panic!("not a literal"),
    }
}

#[test]
fn it_reports_the_error_position() {
    let err = parse("{ ! }").unwrap_err();
    assert_eq!(err.position, 2);
    let err = parse("{ i ").unwrap_err();
    assert_eq!(err.position, 4);
}

fn assert_parses_ok(assembly: &str) {
    let result = parse(assembly);
    match result {
        Ok(tree) => println!("{:?}", tree),
        Err(err) => panic!("{:?}", err),
    }
}

#[test]
fn it_parses_switches_and_functions() {
    let assembly = r#"
        {
          mstore(0x40, 0x60) // store the "free memory pointer"
          // function dispatcher
          switch div(calldataload(0), exp(2, 226))
          case 0xb3de648b: {
            let (r) := f(calldataload(4))
            let ret := $allocate(0x20)
            mstore(ret, r)
            return(ret, 0x20)
          }
          default: { jump(invalidJumpLabel) }
          // memory allocator
          function $allocate(size) -> (pos) {
            pos := mload(0x40)
            mstore(0x40, add(pos, size))
          }
          // the contract function
          function f(x) -> (y) {
            y := 1
            for { let i := 0 } lt(i, x) { i := add(i, 1) } {
              y := mul(2, y)
            }
          }
        }"#;
    assert_parses_ok(assembly);

    let assembly2 = r#"{
          function power(base, exponent) -> (result) {
            switch exponent
            case 0: { result := 1 }
            case 1: { result := base }
            default: {
                result := power(mul(base, base), div(exponent, 2))
                switch mod(exponent, 2)
                    case 1: { result := mul(base, result) }
            }
          }
        }"#;
    assert_parses_ok(assembly2);
}

#[test]
fn it_parses_for_loops() {
    let assembly = r#"{
            function power(base, exponent) -> (result)
            {
                result := 1
                for { let i := 0 } lt(i, exponent) { i := add(i, 1) }
                {
                    result := mul(result, base)
                }
            }
        }"#;
    assert_parses_ok(assembly);
}

#[test]
fn it_parses_empty_and_trailing_trivia() {
    assert_eq!(parse("{ }").unwrap().node.statements.len(), 0);
    assert_eq!(parse("  /* lead */ { } // trail\n").unwrap().node.statements.len(), 0);
    assert!(parse("").is_err());
    assert!(parse("{ } }").is_err());
    let err = parse("").unwrap_err();
    assert_eq!(err.position, 0);
    assert_eq!(err.message, "unexpected end of input");
}

#[test]
fn it_parses_statement_forms() {
    let block = parse("{ let (a, b) := f(1, \"x\", hex'00ff') a := b break continue switch a default: { } }").unwrap();
    let kinds: Vec<&str> = block.node.statements.iter().map(|s| match &s.node {
        Statement::VariableDeclaration(_) => "let",
        Statement::Assignment(_) => "assign",
        Statement::ControlOp(_) => "control",
        Statement::Switch(_) => "switch",
        _ => "other",
    }).collect();
    assert_eq!(kinds, vec!["let", "assign", "control", "control", "switch"]);
}

#[test]
fn it_rejects_keywords_and_missing_parts() {
    assert!(parse("{ let := 1 }").is_err());
    assert!(parse("{ for { } x { } }").is_err());
    assert!(parse("{ function f( { } }").is_err());
    assert!(parse("{ f(a, ) }").is_err());
}

#[test]
fn it_builds_literal_nodes_by_hand() {
    let mut ids = NodeIds::new();
    assert_eq!(HexNumber::new(&mut ids, "00ff").unwrap().node.uint.limbs, [255, 0, 0, 0]);
    assert!(HexNumber::new(&mut ids, "").is_none());
    assert!(HexNumber::new(&mut ids, "fg").is_none());
    assert!(HexNumber::new(&mut ids, &format!("1{}", "0".repeat(64))).is_none());
    assert_eq!(DecNumber::new(&mut ids, "18446744073709551616").unwrap().node.uint.limbs, [0, 1, 0, 0]);
    assert!(DecNumber::new(&mut ids, "1a").is_none());
    assert_eq!(HexLiteral::new(&mut ids, "0aFf").unwrap().node.bytes, vec![10, 255]);
    assert!(HexLiteral::new(&mut ids, "0aF").is_none());
    assert_eq!(ids.next, 3);
}

#[test]
fn it_rejects_malformed_hex_literals_in_programs() {
    assert!(parse("{ hex\"FFF\" }").is_err());
    assert!(parse("{ hex'GG' }").is_err());
    assert!(parse("{ hex\"FF1\" }").is_err());
    assert!(parse("{ f(hex\"F\") }").is_err());
    assert!(parse("{ let x := hex'0' }").is_err());
    assert!(parse("{ hex\"ff\" }").is_ok());
    assert!(parse("{ hex }").is_ok());
}

#[test]
fn it_rejects_numbers_running_into_words() {
    assert!(parse("{ 0xZZ }").is_err());
    assert!(parse("{ 1foo }").is_err());
    assert!(parse("{ 0xFFg }").is_err());
    assert!(parse("{ 10_ }").is_err());
    assert!(parse("{ f(0x1, 2) }").is_ok());
    assert!(rules::dec_number("12a").is_err());
    assert!(rules::hex_number("0x12z").is_err());
}

#[test]
fn it_reports_the_first_statement_that_does_not_parse() {
    assert_eq!(parse("{ i { j ! } k }").unwrap_err().position, 4);
    assert_eq!(parse("  x").unwrap_err().position, 2);
    assert_eq!(parse("{ } y").unwrap_err().position, 4);
    assert_eq!(parse("{ a b hex\"F\" }").unwrap_err().position, 6);
    assert_eq!(parse("{ a b hex\"F\" }").unwrap_err().message, "unexpected input");
}
