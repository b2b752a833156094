use solasm::process::{Config, FormatAssembly, Processor, Target};

#[test]
fn it_parses_correctly() {
    let mut config = Config::new();
    config.source_str("{ i }");

    let result = Processor::new()
        .configure(config)
        .and_then(FormatAssembly::run);

    assert!(result.is_ok());
}

#[test]
fn it_errors_correctly() {
    let mut config = Config::new();
    config.source_str("{ ! }");

    let result = Processor::new()
        .configure(config)
        .and_then(FormatAssembly::run);

    assert!(result.is_err());
}

#[test]
fn it_formats_when_assembly_is_a_target() {
    let mut config = Config::new();
    config.source_str("{ i j }");
    config.target(Target::Assembly);
    config.target(Target::Assembly);
    assert_eq!(config.targets.len(), 1);
    assert!(config.targets(Target::Assembly));

    let done = Processor::new().configure(config).and_then(FormatAssembly::run).unwrap();
    assert_eq!(done.state.output, Some("{\n  i\n  j\n}".to_string()));
}

#[test]
fn it_needs_the_source_text() {
    let mut config = Config::new();
    config.source_file("program.asm");
    let result = Processor::new().configure(config).and_then(FormatAssembly::run);
    match result {
        Err(e) => assert!(e.state.parse_error.is_none()),
        Ok(_) => panic!("a file source must be read first"),
    }
}
