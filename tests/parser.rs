use compiler::{parse_program, Command, CompilerError, Parser};

fn mov(kind: &str, amount: i32) -> Command {
    Command::Move { kind: kind.to_string(), amount }
}

fn jal(label: &str) -> Command {
    Command::Jump { label: label.to_string() }
}

#[test]
fn parser_test_parse_single_section() {
    let input = r#"
        circle:
            mov direction, 1
            mov forward, 4
            mov direction, 0
        "#
    .to_string();

    let mut parser = Parser::new(input);
    let program = parser.parse().unwrap();

    assert_eq!(program.sections.len(), 1);
    assert_eq!(program.sections[0].name, "circle");
    assert_eq!(program.sections[0].commands.len(), 3);

    if let Command::Move { kind, amount } = &program.sections[0].commands[0] {
        assert_eq!(kind, "direction");
        assert_eq!(*amount, 1);
    } else {
        panic!("Expected Move command");
    }

    let input = r#"
        start:
            mov forward, 10
            mov backward, 4
        "#
    .to_string();

    let mut parser = Parser::new(input);
    let program = parser.parse().unwrap();

    assert_eq!(program.sections.len(), 1);
    assert_eq!(program.sections[0].name, "start");
    assert_eq!(program.sections[0].commands.len(), 2);
    assert_eq!(program.sections[0].commands[0], mov("forward", 10));
    assert_eq!(program.sections[0].commands[1], mov("backward", 4));
}

#[test]
fn test_parse_jump() {
    let input = r#"
        main:
            jal circle
            mov forward, 10
        "#
    .to_string();

    let mut parser = Parser::new(input);
    let program = parser.parse().unwrap();

    assert_eq!(program.sections.len(), 1);
    assert_eq!(program.sections[0].name, "main");
    assert_eq!(program.sections[0].commands.len(), 2);

    if let Command::Jump { label } = &program.sections[0].commands[0] {
        assert_eq!(label, "circle");
    } else {
        panic!("Expected Jump command");
    }
}

#[test]
fn test_parse_multiple_sections() {
    let input = r#"
        first:
            mov forward, 5
        second:
            mov backward, 3
            mov forward, 2
        "#
    .to_string();

    let mut parser = Parser::new(input);
    let program = parser.parse().unwrap();

    assert_eq!(program.sections.len(), 2);

    assert_eq!(program.sections[0].name, "first");
    assert_eq!(program.sections[0].commands.len(), 1);
    assert_eq!(program.sections[0].commands[0], mov("forward", 5));

    assert_eq!(program.sections[1].name, "second");
    assert_eq!(program.sections[1].commands.len(), 2);
    assert_eq!(program.sections[1].commands[0], mov("backward", 3));
    assert_eq!(program.sections[1].commands[1], mov("forward", 2));
}

fn parse_error(input: &str) -> CompilerError {
    parse_program(input.to_string()).unwrap_err()
}

fn parser_error(m: &str) -> CompilerError {
    CompilerError::ParserError(m.to_string())
}

#[test]
fn parse_empty_source_has_no_sections() {
    assert_eq!(parse_program(String::new()).unwrap().sections.len(), 0);
    assert_eq!(parse_program(" \n\t ".to_string()).unwrap().sections.len(), 0);
}

#[test]
fn parse_errors_by_grammar_rule() {
    assert_eq!(parse_error(": mov forward, 10"), parser_error("Expected section name"));
    assert_eq!(parse_error("10: mov forward, 10"), parser_error("Expected section name"));
    assert_eq!(
        parse_error("section start: mov forward, 10"),
        parser_error("Expected ':' after section name")
    );
    assert_eq!(parse_error("start"), parser_error("Expected ':' after section name"));
    assert_eq!(
        parse_error("start: turn forward, 10"),
        parser_error("Expected 'mov' command or 'jal'")
    );
    assert_eq!(parse_error("start: 5"), parser_error("Expected 'mov' command or 'jal'"));
    assert_eq!(parse_error("start: jal"), parser_error("Expected label after jal"));
    assert_eq!(parse_error("start: jal , x"), parser_error("Expected label after jal"));
    assert_eq!(parse_error("start: mov , 10"), parser_error("Expected direction"));
    assert_eq!(parse_error("start: mov"), parser_error("Expected direction"));
    assert_eq!(
        parse_error("start: mov forward 10"),
        parser_error("Expected ',' after direction")
    );
    assert_eq!(parse_error("start: mov forward,"), parser_error("Expected number"));
    assert_eq!(parse_error("start: mov forward, x"), parser_error("Expected number"));
}

#[test]
fn parse_lexer_error_surfaces() {
    assert_eq!(
        parse_error("start: mov forward, 99999999999"),
        CompilerError::LexerError("Number out of range: 99999999999".to_string())
    );
    assert_eq!(
        parse_error("3000000000"),
        CompilerError::LexerError("Number out of range: 3000000000".to_string())
    );
}

#[test]
fn parse_section_keyword_is_an_ordinary_name() {
    let program = parse_program("section : mov forward, 10".to_string()).unwrap();
    assert_eq!(program.sections.len(), 1);
    assert_eq!(program.sections[0].name, "section");
    assert_eq!(program.sections[0].commands, vec![mov("forward", 10)]);
}

#[test]
fn parse_header_after_jump_starts_new_section() {
    let program = parse_program("a: jal b b: jal a mov: mov mov, 1".to_string()).unwrap();
    assert_eq!(program.sections.len(), 3);
    assert_eq!(program.sections[0].name, "a");
    assert_eq!(program.sections[0].commands, vec![jal("b")]);
    assert_eq!(program.sections[1].name, "b");
    assert_eq!(program.sections[1].commands, vec![jal("a")]);
    assert_eq!(program.sections[2].name, "mov");
    assert_eq!(program.sections[2].commands, vec![mov("mov", 1)]);
}

#[test]
fn compiler_error_messages() {
    assert_eq!(
        parse_error("bad:\n mov direction 1\n").to_string(),
        "Parser error: Expected ',' after direction"
    );
    assert_eq!(
        CompilerError::LexerError("x".to_string()).to_string(),
        "Lexer error: x"
    );
    assert_eq!(
        CompilerError::CodegenError("y".to_string()).to_string(),
        "Codegen error: y"
    );
}
