use vstd::prelude::*;

use crate::ir::{Command, CommandView, Program, Section, SectionView};
use crate::lexer::push_char;

verus! {

/// Pin declarations, `setup` and the `loop` dispatcher that calls `main_loop`.
pub const PREAMBLE: &'static str = r#"// Automatically Generated From IR
// Motor A connections
int enA = 9;
int in1 = 3;
int in2 = 4;
// Motor B connections
int enB = 10;
int in3 = 5;
int in4 = 6;

void setup() {
    // Set all the motor control pins to outputs
    pinMode(enA, OUTPUT);
    pinMode(enB, OUTPUT);
    pinMode(in1, OUTPUT);
    pinMode(in2, OUTPUT);
    pinMode(in3, OUTPUT);
    pinMode(in4, OUTPUT);
    
    // Turn off motors - Initial state
    digitalWrite(in1, LOW);
    digitalWrite(in2, LOW);
    digitalWrite(in3, LOW);
    digitalWrite(in4, LOW);
    analogWrite(enA, 255);
    analogWrite(enB, 255);
}

void loop() {
    main_loop();
}

"#;

/// The motion routines that the generated functions call.
pub const POSTAMBLE: &'static str = r#"void forward(int time){
        	delay(500);
	digitalWrite(in2, HIGH);
	digitalWrite(in1, LOW);
	delay(time*1000);
	digitalWrite(in1, LOW);
	digitalWrite(in2, LOW);
	delay(500);

}

void backwards(int time){
	delay(500);
	digitalWrite(in1, HIGH);
	digitalWrite(in2, LOW);
	delay(time*1000);	
	digitalWrite(in1, LOW);
	digitalWrite(in2, LOW);
	delay(500);
}

void right(){
    	straight();
	delay(500);
	digitalWrite(in3, LOW);
	digitalWrite(in4, HIGH);
	delay(500);
}

void wait(int time){
    	digitalWrite(in1, LOW);
	digitalWrite(in2, LOW);
	// float delayTime = time*1000;
	// long delayLong = (long)delayTime;
	delay(time*1000);
}

void left(){
    	straight();
	delay(500);
	digitalWrite(in4, LOW);
	digitalWrite(in3, HIGH);
	delay(500);
}

void straight(){
    	digitalWrite(in4, LOW);
	digitalWrite(in3, LOW);
	delay(500);
}
"#;

/// The name of the generated function for a section or jump target: `main` would clash with
/// the dispatcher, so it becomes `main_loop`.
pub open spec fn routine_name(name: Seq<char>) -> Seq<char> {
    if name == "main"@ {
        "main_loop"@
    } else {
        name
    }
}

pub open spec fn digit_char(d: nat) -> char {
    ((d + 48) as u8) as char
}

/// Decimal digits of `n`, without leading zeros.
pub open spec fn nat_digits(n: nat) -> Seq<char>
    decreases n,
{
    if n < 10 {
        seq![digit_char(n)]
    } else {
        nat_digits(n / 10).push(digit_char(n % 10))
    }
}

/// Decimal notation of `n`, with a leading `-` when negative.
pub open spec fn decimal(n: int) -> Seq<char> {
    if n < 0 {
        seq!['-'] + nat_digits((-n) as nat)
    } else {
        nat_digits(n as nat)
    }
}

/// The concatenation of the texts in order, or the first error among them.
pub open spec fn join_results(rs: Seq<Result<Seq<char>, Seq<char>>>) -> Result<
    Seq<char>,
    Seq<char>,
>
    decreases rs.len(),
{
    if rs.len() == 0 {
        Ok(seq![])
    } else {
        match join_results(rs.drop_last()) {
            Err(e) => Err(e),
            Ok(pre) => match rs.last() {
                Err(e) => Err(e),
                Ok(t) => Ok(pre + t),
            },
        }
    }
}

/// The line emitted for one command, or the message of the error it raises.
pub open spec fn command_code(c: CommandView) -> Result<Seq<char>, Seq<char>> {
    match c {
        CommandView::Move { kind, amount } => if kind == "forward"@ {
            Ok("    forward("@ + decimal(amount as int) + ");\n"@)
        } else if kind == "backward"@ {
            Ok("    backwards("@ + decimal(amount as int) + ");\n"@)
        } else if kind == "direction"@ {
            if amount == 1 {
                Ok("    left();\n"@)
            } else if amount == 2 {
                Ok("    right();\n"@)
            } else if amount == 0 {
                Ok("    straight();\n"@)
            } else {
                Err("Invalid direction value: "@ + decimal(amount as int))
            }
        } else if kind == "wait"@ {
            Ok("    wait("@ + decimal(amount as int) + ");\n"@)
        } else {
            Err("Unknown command type: "@ + kind)
        },
        CommandView::Jump { label } => Ok("    "@ + routine_name(label) + "();\n"@),
    }
}

pub open spec fn commands_code(cs: Seq<CommandView>) -> Result<Seq<char>, Seq<char>> {
    join_results(cs.map_values(|c: CommandView| command_code(c)))
}

/// One function per section, its body the commands' lines in order.
pub open spec fn section_code(s: SectionView) -> Result<Seq<char>, Seq<char>> {
    match commands_code(s.commands) {
        Err(e) => Err(e),
        Ok(body) => Ok("void "@ + routine_name(s.name) + "() {\n"@ + body + "}\n\n"@),
    }
}

pub open spec fn sections_code(ss: Seq<SectionView>) -> Result<Seq<char>, Seq<char>> {
    join_results(ss.map_values(|s: SectionView| section_code(s)))
}

/// The firmware text for a program, or the message of the first code generation error.
pub open spec fn arduino_code(p: Seq<SectionView>) -> Result<Seq<char>, Seq<char>> {
    match sections_code(p) {
        Err(e) => Err(e),
        Ok(body) => Ok(PREAMBLE@ + body + POSTAMBLE@),
    }
}

/// Once a prefix fails, the whole sequence fails with the same error.
pub proof fn lemma_join_prefix_error(rs: Seq<Result<Seq<char>, Seq<char>>>, i: int)
    requires
        0 <= i <= rs.len(),
        join_results(rs.take(i)) is Err,
    ensures
        join_results(rs) == join_results(rs.take(i)),
    decreases rs.len(),
{
    if i == rs.len() {
        assert(rs.take(i) =~= rs);
    } else {
        assert(rs.drop_last().take(i) =~= rs.take(i));
        lemma_join_prefix_error(rs.drop_last(), i);
    }
}

fn push_digits(out: &mut String, n: u32)
    ensures
        final(out)@ == old(out)@ + nat_digits(n as nat),
    decreases n,
{
    if n >= 10 {
        push_digits(out, n / 10);
    }
    let d = (n % 10) as u8;
    push_char(out, (48u8 + d) as char);
}

fn push_decimal(out: &mut String, n: i32)
    ensures
        final(out)@ == old(out)@ + decimal(n as int),
{
    if n < 0 {
        push_char(out, '-');
        let m = (-(n as i64)) as u32;
        push_digits(out, m);
    } else {
        push_digits(out, n as u32);
    }
}

fn routine_name_of(name: &String) -> (r: String)
    ensures
        r@ == routine_name(name@),
{
    if name.eq(&String::from_str("main")) {
        String::from_str("main_loop")
    } else {
        name.clone()
    }
}

fn emit_command(out: &mut String, c: &Command) -> (r: Result<(), String>)
    ensures
        match command_code(c@) {
            Ok(t) => r is Ok && final(out)@ == old(out)@ + t,
            Err(m) => r is Err && r->Err_0@ == m,
        },
{
    match c {
        Command::Move { kind, amount } => {
            if kind.eq(&String::from_str("forward")) {
                out.append("    forward(");
                push_decimal(out, *amount);
                out.append(");\n");
                Ok(())
            } else if kind.eq(&String::from_str("backward")) {
                out.append("    backwards(");
                push_decimal(out, *amount);
                out.append(");\n");
                Ok(())
            } else if kind.eq(&String::from_str("direction")) {
                if *amount == 1 {
                    out.append("    left();\n");
                    Ok(())
                } else if *amount == 2 {
                    out.append("    right();\n");
                    Ok(())
                } else if *amount == 0 {
                    out.append("    straight();\n");
                    Ok(())
                } else {
                    let mut m = String::from_str("Invalid direction value: ");
                    push_decimal(&mut m, *amount);
                    Err(m)
                }
            } else if kind.eq(&String::from_str("wait")) {
                out.append("    wait(");
                push_decimal(out, *amount);
                out.append(");\n");
                Ok(())
            } else {
                let mut m = String::from_str("Unknown command type: ");
                m.append(kind.as_str());
                Err(m)
            }
        },
        Command::Jump { label } => {
            out.append("    ");
            out.append(routine_name_of(label).as_str());
            out.append("();\n");
            Ok(())
        },
    }
}

fn emit_section(out: &mut String, s: &Section) -> (r: Result<(), String>)
    ensures
        match section_code(s@) {
            Ok(t) => r is Ok && final(out)@ == old(out)@ + t,
            Err(m) => r is Err && r->Err_0@ == m,
        },
{
    let ghost start = out@;
    let ghost rs = s@.commands.map_values(|c: CommandView| command_code(c));
    out.append("void ");
    out.append(routine_name_of(&s.name).as_str());
    out.append("() {\n");
    let ghost head = out@;
    let mut i: usize = 0;
    assert(rs.take(0) =~= seq![]);
    while i < s.commands.len()
        invariant
            i <= s.commands.len(),
            rs.len() == s.commands.len(),
            rs == s@.commands.map_values(|c: CommandView| command_code(c)),
            head == start + "void "@ + routine_name(s.name@) + "() {\n"@,
            join_results(rs.take(i as int)) is Ok,
            out@ == head + join_results(rs.take(i as int))->Ok_0,
        decreases s.commands.len() - i,
    {
        let ghost before = out@;
        let r = emit_command(out, &s.commands[i]);
        assert(rs.take(i + 1).drop_last() =~= rs.take(i as int));
        assert(rs[i as int] == command_code(s.commands@[i as int]@));
        if let Err(m) = r {
            proof {
                lemma_join_prefix_error(rs, i + 1);
            }
            return Err(m);
        }
        i += 1;
    }
    assert(rs.take(i as int) =~= rs);
    out.append("}\n\n");
    assert(out@ =~= start + ("void "@ + routine_name(s.name@) + "() {\n"@ + join_results(rs)->Ok_0
        + "}\n\n"@));
    Ok(())
}

/// Emits the firmware text for `program`: the fixed preamble, one function per section and
/// the fixed motion routines; fails on the first command that names an unknown kind or an
/// invalid direction.
pub fn generate_arduino_code(program: &Program) -> (r: Result<String, String>)
    ensures
        match arduino_code(program@) {
            Ok(t) => r is Ok && r->Ok_0@ == t,
            Err(m) => r is Err && r->Err_0@ == m,
        },
{
    let ghost rs = program@.map_values(|s: SectionView| section_code(s));
    let mut out = String::from_str(PREAMBLE);
    let mut i: usize = 0;
    assert(rs.take(0) =~= seq![]);
    assert(out@ =~= PREAMBLE@ + seq![]);
    while i < program.sections.len()
        invariant
            i <= program.sections.len(),
            rs.len() == program.sections.len(),
            rs == program@.map_values(|s: SectionView| section_code(s)),
            join_results(rs.take(i as int)) is Ok,
            out@ == PREAMBLE@ + join_results(rs.take(i as int))->Ok_0,
        decreases program.sections.len() - i,
    {
        let r = emit_section(&mut out, &program.sections[i]);
        assert(rs.take(i + 1).drop_last() =~= rs.take(i as int));
        assert(rs[i as int] == section_code(program.sections@[i as int]@));
        if let Err(m) = r {
            proof {
                lemma_join_prefix_error(rs, i + 1);
            }
            return Err(m);
        }
        i += 1;
    }
    assert(rs.take(i as int) =~= rs);
    out.append(POSTAMBLE);
    Ok(out)
}

} // verus!
