use compiler::codegen::{POSTAMBLE, PREAMBLE};
use compiler::{
    compile_to_arduino, generate_arduino_code, parse_program, Command, CompilerError, Program,
    Section,
};

fn mov(kind: &str, amount: i32) -> Command {
    Command::Move { kind: kind.to_string(), amount }
}

fn section(name: &str, commands: Vec<Command>) -> Section {
    Section { name: name.to_string(), commands }
}

fn body_of(output: &str) -> &str {
    assert!(output.starts_with(PREAMBLE));
    assert!(output.ends_with(POSTAMBLE));
    &output[PREAMBLE.len()..output.len() - POSTAMBLE.len()]
}

#[test]
fn test_compile_to_arduino() {
    let input = r#"
    circle:
        mov direction, 1
        mov forward, 4
        mov direction, 0

    main:
        jal circle
        mov forward, 4
        jal circle
    "#
    .to_string();

    let output = compile_to_arduino(input).unwrap();
    assert!(output.contains("void circle()"));
    assert!(output.contains("void main_loop()"));
    assert!(output.contains("forward(4)"));
    assert!(output.contains("circle();"));
}

#[test]
fn generate_exact_text_for_each_kind() {
    let program = Program {
        sections: vec![section(
            "run",
            vec![
                mov("forward", 10),
                mov("backward", 4),
                mov("direction", 1),
                mov("direction", 2),
                mov("direction", 0),
                mov("wait", 3),
                Command::Jump { label: "other".to_string() },
                Command::Jump { label: "main".to_string() },
            ],
        )],
    };
    let output = generate_arduino_code(&program).unwrap();
    assert_eq!(
        body_of(&output),
        "void run() {\n    forward(10);\n    backwards(4);\n    left();\n    right();\n    \
         straight();\n    wait(3);\n    other();\n    main_loop();\n}\n\n"
    );
}

#[test]
fn generate_empty_program_is_template_only() {
    let output = generate_arduino_code(&Program { sections: vec![] }).unwrap();
    assert_eq!(output, format!("{}{}", PREAMBLE, POSTAMBLE));
    assert!(output.starts_with("// Automatically Generated From IR\n"));
    assert!(output.contains("void loop() {\n    main_loop();\n}"));
    assert!(output.contains("void backwards(int time){"));
}

#[test]
fn generate_writes_amounts_in_decimal() {
    let program = Program {
        sections: vec![section(
            "n",
            vec![
                mov("forward", 0),
                mov("forward", -5),
                mov("wait", 2147483647),
                mov("backward", -2147483648),
                mov("wait", 1230),
            ],
        )],
    };
    let output = generate_arduino_code(&program).unwrap();
    assert_eq!(
        body_of(&output),
        "void n() {\n    forward(0);\n    forward(-5);\n    wait(2147483647);\n    \
         backwards(-2147483648);\n    wait(1230);\n}\n\n"
    );
}

#[test]
fn generate_rejects_bad_direction_and_kind() {
    let bad_direction = Program { sections: vec![section("s", vec![mov("direction", -1)])] };
    assert_eq!(
        generate_arduino_code(&bad_direction),
        Err("Invalid direction value: -1".to_string())
    );
    let bad_kind = Program {
        sections: vec![
            section("ok", vec![mov("forward", 1)]),
            section("s", vec![mov("forward", 1), mov("straight", 0), mov("direction", 9)]),
        ],
    };
    assert_eq!(generate_arduino_code(&bad_kind), Err("Unknown command type: straight".to_string()));
}

#[test]
fn start_scenario_parses_and_generates() {
    let input = "start:\n mov forward, 10\n mov backward, 4\n".to_string();
    let program = parse_program(input.clone()).unwrap();
    assert_eq!(program.sections.len(), 1);
    assert_eq!(program.sections[0].name, "start");
    assert_eq!(program.sections[0].commands, vec![mov("forward", 10), mov("backward", 4)]);
    let output = compile_to_arduino(input).unwrap();
    assert_eq!(body_of(&output), "void start() {\n    forward(10);\n    backwards(4);\n}\n\n");
}

#[test]
fn circle_and_main_scenario() {
    let input = "circle:\n mov direction, 1\n mov forward, 4\n mov direction, 0\nmain:\n jal circle\n mov forward, 10\n jal circle\n"
        .to_string();
    let output = compile_to_arduino(input).unwrap();
    assert_eq!(
        body_of(&output),
        "void circle() {\n    left();\n    forward(4);\n    straight();\n}\n\n\
         void main_loop() {\n    circle();\n    forward(10);\n    circle();\n}\n\n"
    );
}

#[test]
fn empty_section_scenario() {
    let program = parse_program("empty:\n".to_string()).unwrap();
    assert_eq!(program.sections.len(), 1);
    assert_eq!(program.sections[0].name, "empty");
    assert!(program.sections[0].commands.is_empty());
    let output = compile_to_arduino("empty:\n".to_string()).unwrap();
    assert_eq!(body_of(&output), "void empty() {\n}\n\n");
}

#[test]
fn missing_comma_scenario() {
    let input = "bad:\n mov direction 1\n".to_string();
    let expected = CompilerError::ParserError("Expected ',' after direction".to_string());
    assert_eq!(parse_program(input.clone()), Err(expected.clone()));
    assert_eq!(compile_to_arduino(input), Err(expected));
    let with_comment = "\n    invalid:\n        mov direction 1  # Missing comma\n    ".to_string();
    let err = parse_program(with_comment).unwrap_err();
    assert!(err.to_string().contains("Expected ',' after direction"));
}

#[test]
fn unknown_kind_scenario() {
    let input = "bad2:\n mov teleport, 1\n".to_string();
    let program = parse_program(input.clone()).unwrap();
    assert_eq!(program.sections[0].commands, vec![mov("teleport", 1)]);
    let err = compile_to_arduino(input).unwrap_err();
    assert_eq!(err, CompilerError::CodegenError("Unknown command type: teleport".to_string()));
    assert!(err.to_string().contains("teleport"));
}

#[test]
fn invalid_direction_scenario() {
    let input = "turn:\n mov direction, 5\n".to_string();
    assert!(parse_program(input.clone()).is_ok());
    assert_eq!(
        compile_to_arduino(input),
        Err(CompilerError::CodegenError("Invalid direction value: 5".to_string()))
    );
}

#[test]
fn main_is_renamed_in_definitions_and_jumps() {
    let output = compile_to_arduino("main: jal main helper: jal main".to_string()).unwrap();
    assert_eq!(
        body_of(&output),
        "void main_loop() {\n    main_loop();\n}\n\nvoid helper() {\n    main_loop();\n}\n\n"
    );
    let output = compile_to_arduino("main_loop: jal mainx".to_string()).unwrap();
    assert_eq!(body_of(&output), "void main_loop() {\n    mainx();\n}\n\n");
}

#[test]
fn extra_whitespace_changes_nothing() {
    let tight = "a: mov forward, 1 jal b b: mov wait, 2".to_string();
    let loose = "\n\t a \u{3000}:\n\n  mov   forward ,\t1\r\n jal  b\n\nb :mov wait,2  \n".to_string();
    assert_eq!(parse_program(tight.clone()), parse_program(loose.clone()));
    assert_eq!(compile_to_arduino(tight), compile_to_arduino(loose));
}

#[test]
fn header_followed_by_header_is_empty() {
    let program = parse_program("a:\nb:\n mov forward, 1\nc:".to_string()).unwrap();
    assert_eq!(program.sections.len(), 3);
    assert!(program.sections[0].commands.is_empty());
    assert_eq!(program.sections[1].commands, vec![mov("forward", 1)]);
    assert!(program.sections[2].commands.is_empty());
}

#[test]
fn program_reparses_from_its_rendering() {
    let program = parse_program("a: mov forward, 3 jal b\nb: mov direction, 2".to_string()).unwrap();
    let mut text = String::new();
    for s in &program.sections {
        text.push_str(&format!(" {} :", s.name));
        for c in &s.commands {
            match c {
                Command::Move { kind, amount } => text.push_str(&format!(" mov {} , {}", kind, amount)),
                Command::Jump { label } => text.push_str(&format!(" jal {}", label)),
            }
        }
    }
    assert_eq!(parse_program(text), Ok(program));
}
