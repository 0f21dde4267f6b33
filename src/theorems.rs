use vstd::prelude::*;

use crate::codegen::{
    arduino_code, command_code, commands_code, decimal, digit_char, join_results, nat_digits,
    routine_name, section_code,
};
use crate::ir::{CommandView, SectionView};
use crate::lexer::{
    digit_value, digits_value, ends_stream, in_class, is_delimiter, is_digit_char, is_name,
    lemma_run_agree, lemma_run_concat, lemma_run_length_bound, lemma_scan_name,
    lemma_scan_progress, run_length, scan, spec_is_whitespace, tokens, CharClass, Lexeme,
    TokenView,
};
use crate::parser::{
    at, body_ends, command_parse, commands_parse, is_identifier, is_word, lemma_command_length,
    lemma_section_length, parse_source, section_parse, sections_parse,
};
use crate::{arduino_of_source, ErrorView};

verus! {

/// The kinds of move that the code generator knows.
pub open spec fn known_kind(kind: Seq<char>) -> bool {
    kind == "forward"@ || kind == "backward"@ || kind == "direction"@ || kind == "wait"@
}

/// Any failing element makes the joined result fail.
pub proof fn lemma_join_error(rs: Seq<Result<Seq<char>, Seq<char>>>, k: int)
    requires
        0 <= k < rs.len(),
        rs[k] is Err,
    ensures
        join_results(rs) is Err,
    decreases rs.len(),
{
    if k < rs.len() - 1 {
        lemma_join_error(rs.drop_last(), k);
    }
}

/// A command whose code fails makes the whole program fail to generate.
pub proof fn lemma_failing_command(p: Seq<SectionView>, i: int, j: int)
    requires
        0 <= i < p.len(),
        0 <= j < p[i].commands.len(),
        command_code(p[i].commands[j]) is Err,
    ensures
        arduino_code(p) is Err,
{
    let cs = p[i].commands;
    lemma_join_error(cs.map_values(|c: CommandView| command_code(c)), j);
    assert(section_code(p[i]) is Err);
    lemma_join_error(p.map_values(|s: SectionView| section_code(s)), i);
}

/// A source that parses but holds a move of an unknown kind compiles to its program, yet fails
/// code generation.
pub proof fn lemma_unknown_kind_fails(s: Seq<char>, i: int, j: int)
    requires
        parse_source(s) is Ok,
        0 <= i < parse_source(s)->Ok_0.len(),
        0 <= j < parse_source(s)->Ok_0[i].commands.len(),
        parse_source(s)->Ok_0[i].commands[j] is Move,
        !known_kind(parse_source(s)->Ok_0[i].commands[j]->Move_kind),
    ensures
        arduino_of_source(s) is Err,
        arduino_of_source(s)->Err_0 is Codegen,
{
    lemma_failing_command(parse_source(s)->Ok_0, i, j);
}

/// A source that parses but turns in a direction other than 0, 1 or 2 compiles to its program,
/// yet fails code generation.
pub proof fn lemma_invalid_direction_fails(s: Seq<char>, i: int, j: int)
    requires
        parse_source(s) is Ok,
        0 <= i < parse_source(s)->Ok_0.len(),
        0 <= j < parse_source(s)->Ok_0[i].commands.len(),
        parse_source(s)->Ok_0[i].commands[j] is Move,
        parse_source(s)->Ok_0[i].commands[j]->Move_kind == "direction"@,
        !(0 <= parse_source(s)->Ok_0[i].commands[j]->Move_amount <= 2),
    ensures
        arduino_of_source(s) is Err,
        arduino_of_source(s)->Err_0 is Codegen,
{
    reveal_strlit("direction");
    reveal_strlit("forward");
    reveal_strlit("backward");
    assert("direction"@.len() == 9);
    assert("direction"@ != "forward"@ && "direction"@ != "backward"@) by {
        assert("forward"@.len() == 7);
        assert("backward"@.len() == 8);
    }
    lemma_failing_command(parse_source(s)->Ok_0, i, j);
}

/// A section named `main` becomes the function `main_loop`, and a jump to `main` calls
/// `main_loop`.
pub proof fn lemma_main_alias(cs: Seq<CommandView>)
    ensures
        routine_name("main"@) == "main_loop"@,
        command_code(CommandView::Jump { label: "main"@ }) == Ok::<Seq<char>, Seq<char>>(
            "    main_loop();\n"@,
        ),
        commands_code(cs) is Ok ==> section_code(SectionView { name: "main"@, commands: cs })
            == Ok::<Seq<char>, Seq<char>>(
            "void main_loop() {\n"@ + commands_code(cs)->Ok_0 + "}\n\n"@,
        ),
{
    reveal_strlit("    ");
    reveal_strlit("main_loop");
    reveal_strlit("();\n");
    reveal_strlit("    main_loop();\n");
    reveal_strlit("void ");
    reveal_strlit("() {\n");
    reveal_strlit("void main_loop() {\n");
    assert("    "@ + "main_loop"@ + "();\n"@ =~= "    main_loop();\n"@);
    assert("void "@ + "main_loop"@ + "() {\n"@ =~= "void main_loop() {\n"@);
}

/// Whether a lexeme stream starts at the end of input or at a section header.
pub open spec fn starts_at_header_or_end(ts: Seq<Lexeme>) -> bool {
    at(ts, 0) == Ok::<TokenView, Seq<char>>(TokenView::Eof) || (is_identifier(at(ts, 0)) && at(
        ts,
        1,
    ) == Ok::<TokenView, Seq<char>>(TokenView::Colon))
}

/// A section header directly followed by the end of input or by another header gives a
/// section without commands, ahead of whatever the rest parses to.
pub proof fn lemma_empty_section(name: Seq<char>, tail: Seq<char>)
    requires
        is_name(name),
        starts_at_header_or_end(tokens(tail)),
    ensures
        parse_source(name + ":"@ + tail) == match parse_source(tail) {
            Ok(ss) => Ok(seq![SectionView { name, commands: seq![] }] + ss),
            Err(e) => Err(e),
        },
{
    reveal_strlit(":");
    let s = name + ":"@ + tail;
    let rest = ":"@ + tail;
    assert(s =~= name + rest);
    lemma_scan_name(name, rest);
    assert(s.skip(name.len() as int) =~= rest);
    assert(rest.skip(0) =~= rest);
    assert(rest.skip(1) =~= tail);
    let t = tokens(tail);
    let ts = tokens(s);
    assert(rest[0] == ':');
    assert(run_length(rest, CharClass::Whitespace) == 0);
    assert(scan(rest) == (Ok::<TokenView, Seq<char>>(TokenView::Colon), 1nat));
    assert(tokens(rest) == seq![Ok::<TokenView, Seq<char>>(TokenView::Colon)] + t);
    assert(ts == seq![Ok::<TokenView, Seq<char>>(TokenView::Identifier(name))] + tokens(rest));
    assert(ts =~= seq![
        Ok::<TokenView, Seq<char>>(TokenView::Identifier(name)),
        Ok::<TokenView, Seq<char>>(TokenView::Colon),
    ] + t);
    assert(ts.skip(2) =~= t);
    assert(commands_parse(t) == Ok::<(Seq<CommandView>, nat), ErrorView>((seq![], 0)));
    assert(section_parse(ts) == Ok::<(SectionView, nat), ErrorView>(
        (SectionView { name, commands: seq![] }, 2),
    ));
}

/// Whether position `i` of `s` lies between tokens: at either end, or next to a delimiter.
pub open spec fn at_token_boundary(s: Seq<char>, i: int) -> bool {
    i == 0 || i == s.len() || is_delimiter(s[i - 1]) || is_delimiter(s[i])
}

pub open spec fn all_whitespace(w: Seq<char>) -> bool {
    forall|k: int| 0 <= k < w.len() ==> spec_is_whitespace(#[trigger] w[k])
}

/// `s` with `w` inserted at position `i`.
pub open spec fn insert_at(s: Seq<char>, i: int, w: Seq<char>) -> Seq<char> {
    s.take(i) + w + s.skip(i)
}

proof fn lemma_class_not_delimiter(cls: CharClass, c: char)
    requires
        !(cls is Whitespace),
        in_class(cls, c),
    ensures
        !is_delimiter(c),
{
}

/// A run of digits or identifier characters that starts before a token boundary stops there,
/// and whitespace inserted at the boundary leaves it as it is.
proof fn lemma_run_insert(r: Seq<char>, j: int, w: Seq<char>, cls: CharClass)
    requires
        1 <= j <= r.len(),
        all_whitespace(w),
        !(cls is Whitespace),
        at_token_boundary(r, j),
    ensures
        run_length(r, cls) <= j,
        run_length(insert_at(r, j, w), cls) == run_length(r, cls),
{
    let n = run_length(r, cls) as int;
    let r2 = insert_at(r, j, w);
    lemma_run_length_bound(r, cls);
    if n < j {
        assert(r.take(n + 1) =~= r2.take(n + 1));
        lemma_run_agree(r, r2, cls, n + 1);
    } else {
        lemma_class_not_delimiter(cls, r[j - 1]);
        if j < r.len() && in_class(cls, r[j]) {
            lemma_class_not_delimiter(cls, r[j]);
        }
        assert(r2 =~= r.take(j) + (w + r.skip(j)));
        lemma_run_concat(r.take(j), w + r.skip(j), cls);
        if w.len() > 0 {
            assert((w + r.skip(j))[0] == w[0]);
            assert(is_delimiter(w[0]));
        } else {
            assert(w + r.skip(j) =~= r.skip(j));
        }
    }
}

/// Whitespace inserted at a token boundary leaves the lexeme stream as it is.
pub proof fn lemma_tokens_insert_whitespace(s: Seq<char>, i: int, w: Seq<char>)
    requires
        0 <= i <= s.len(),
        all_whitespace(w),
        at_token_boundary(s, i),
    ensures
        tokens(insert_at(s, i, w)) == tokens(s),
    decreases s.len(),
{
    let s2 = insert_at(s, i, w);
    let k = run_length(s, CharClass::Whitespace) as int;
    lemma_run_length_bound(s, CharClass::Whitespace);
    lemma_scan_progress(s);
    let l = scan(s).0;
    let n = scan(s).1 as int;
    if k >= i {
        assert(s =~= s.take(i) + s.skip(i));
        lemma_run_concat(s.take(i), s.skip(i), CharClass::Whitespace);
        assert(s2 =~= (s.take(i) + w) + s.skip(i));
        lemma_run_concat(s.take(i) + w, s.skip(i), CharClass::Whitespace);
        assert(s2.skip(k + w.len()) =~= s.skip(k));
        assert(scan(s2) == (l, (n + w.len()) as nat));
        if !ends_stream(l) {
            assert(s2.skip(n + w.len()) =~= s.skip(n));
        }
    } else {
        assert(s.take(k + 1) =~= s2.take(k + 1));
        lemma_run_agree(s, s2, CharClass::Whitespace, k + 1);
        let r = s.skip(k);
        let r2 = s2.skip(k);
        let j = i - k;
        assert(r2 =~= insert_at(r, j, w));
        assert(r2[0] == r[0]);
        assert(at_token_boundary(r, j)) by {
            if j < r.len() {
                assert(r[j] == s[i]);
            }
            assert(r[j - 1] == s[i - 1]);
        }
        if r[0] == ':' || r[0] == ',' {
        } else if is_digit_char(r[0]) {
            lemma_run_insert(r, j, w, CharClass::Digit);
            let m = run_length(r, CharClass::Digit);
            assert(r2.take(m as int) =~= r.take(m as int));
        } else {
            lemma_run_insert(r, j, w, CharClass::Word);
            let m = run_length(r, CharClass::Word);
            assert(r2.take(m as int) =~= r.take(m as int));
        }
        assert(scan(s2) == scan(s));
        if !ends_stream(l) {
            let t = s.skip(n);
            assert(s2.skip(n) =~= insert_at(t, i - n, w));
            assert(at_token_boundary(t, i - n)) by {
                if 0 < i - n < t.len() {
                    assert(t[i - n] == s[i]);
                }
                if 0 < i - n {
                    assert(t[i - n - 1] == s[i - 1]);
                }
            }
            lemma_tokens_insert_whitespace(t, i - n, w);
        }
    }
}

/// Whitespace inserted between tokens changes neither the parsed program nor the firmware
/// text.
pub proof fn lemma_whitespace_insensitive(s: Seq<char>, i: int, w: Seq<char>)
    requires
        0 <= i <= s.len(),
        all_whitespace(w),
        at_token_boundary(s, i),
    ensures
        parse_source(insert_at(s, i, w)) == parse_source(s),
        arduino_of_source(insert_at(s, i, w)) == arduino_of_source(s),
{
    lemma_tokens_insert_whitespace(s, i, w);
}

/// The source text of a token.
pub open spec fn token_text(t: TokenView) -> Seq<char> {
    match t {
        TokenView::Colon => ":"@,
        TokenView::Comma => ","@,
        TokenView::Identifier(name) => name,
        TokenView::Number(n) => decimal(n as int),
        TokenView::Eof => seq![],
    }
}

/// Tokens that the lexer reads back from their text.
pub open spec fn is_writable(t: TokenView) -> bool {
    match t {
        TokenView::Identifier(name) => is_name(name),
        TokenView::Number(n) => n >= 0,
        TokenView::Eof => false,
        _ => true,
    }
}

/// The texts of the tokens, each after one space.
pub open spec fn spaced(ts: Seq<TokenView>) -> Seq<char>
    decreases ts.len(),
{
    if ts.len() == 0 {
        seq![]
    } else {
        seq![' '] + token_text(ts[0]) + spaced(ts.drop_first())
    }
}

pub open spec fn command_tokens(c: CommandView) -> Seq<TokenView> {
    match c {
        CommandView::Move { kind, amount } => seq![
            TokenView::Identifier("mov"@),
            TokenView::Identifier(kind),
            TokenView::Comma,
            TokenView::Number(amount),
        ],
        CommandView::Jump { label } => seq![
            TokenView::Identifier("jal"@),
            TokenView::Identifier(label),
        ],
    }
}

pub open spec fn commands_tokens(cs: Seq<CommandView>) -> Seq<TokenView>
    decreases cs.len(),
{
    if cs.len() == 0 {
        seq![]
    } else {
        command_tokens(cs[0]) + commands_tokens(cs.drop_first())
    }
}

pub open spec fn section_tokens(s: SectionView) -> Seq<TokenView> {
    seq![TokenView::Identifier(s.name), TokenView::Colon] + commands_tokens(s.commands)
}

pub open spec fn program_tokens(p: Seq<SectionView>) -> Seq<TokenView>
    decreases p.len(),
{
    if p.len() == 0 {
        seq![]
    } else {
        section_tokens(p[0]) + program_tokens(p.drop_first())
    }
}

/// A source text of a program: its tokens, separated by spaces.
pub open spec fn render(p: Seq<SectionView>) -> Seq<char> {
    spaced(program_tokens(p))
}

pub open spec fn is_writable_command(c: CommandView) -> bool {
    match c {
        CommandView::Move { kind, amount } => is_name(kind) && amount >= 0,
        CommandView::Jump { label } => is_name(label),
    }
}

pub open spec fn is_writable_section(s: SectionView) -> bool {
    &&& is_name(s.name)
    &&& forall|j: int| 0 <= j < s.commands.len() ==> is_writable_command(#[trigger] s.commands[j])
}

/// Programs that a source text can express: names are valid identifiers and amounts are not
/// negative.
pub open spec fn is_writable_program(p: Seq<SectionView>) -> bool {
    forall|i: int| 0 <= i < p.len() ==> is_writable_section(#[trigger] p[i])
}

pub open spec fn oks(ts: Seq<TokenView>) -> Seq<Lexeme> {
    ts.map_values(|t: TokenView| Ok::<TokenView, Seq<char>>(t))
}

proof fn lemma_nat_digits(n: nat)
    ensures
        nat_digits(n).len() > 0,
        forall|k: int| 0 <= k < nat_digits(n).len() ==> is_digit_char(#[trigger] nat_digits(n)[k]),
        digits_value(nat_digits(n)) == n,
    decreases n,
{
    let d = nat_digits(n);
    assert(digit_value(digit_char(n % 10)) == n % 10);
    if n >= 10 {
        lemma_nat_digits(n / 10);
        assert(d.drop_last() =~= nat_digits(n / 10));
        assert(d.last() == digit_char(n % 10));
        assert(digits_value(d) == digits_value(nat_digits(n / 10)) * 10 + digit_value(
            digit_char(n % 10),
        ));
        assert(n == (n / 10) * 10 + n % 10);
    } else {
        assert(d.drop_last() =~= seq![]);
        assert(digits_value(d.drop_last()) == 0);
        assert(d.last() == digit_char(n));
    }
}

/// One leading space only adds to what the first lexeme takes.
proof fn lemma_scan_space(r: Seq<char>)
    ensures
        scan(seq![' '] + r) == (scan(r).0, scan(r).1 + 1),
{
    let s = seq![' '] + r;
    let k = run_length(r, CharClass::Whitespace);
    lemma_run_concat(seq![' '], r, CharClass::Whitespace);
    lemma_run_length_bound(r, CharClass::Whitespace);
    assert(s.skip(k + 1 as int) =~= r.skip(k as int));
}

/// A writable token followed by a space, or by nothing, scans back as itself.
proof fn lemma_scan_token(t: TokenView, rest: Seq<char>)
    requires
        is_writable(t),
        rest.len() == 0 || rest[0] == ' ',
    ensures
        scan(token_text(t) + rest) == (Ok::<TokenView, Seq<char>>(t), token_text(t).len()),
{
    let s = token_text(t) + rest;
    reveal_strlit(":");
    reveal_strlit(",");
    match t {
        TokenView::Identifier(name) => {
            lemma_scan_name(name, rest);
        },
        TokenView::Number(n) => {
            let d = nat_digits(n as nat);
            lemma_nat_digits(n as nat);
            assert(s[0] == d[0]);
            assert(s.skip(0) =~= s);
            lemma_run_concat(d, rest, CharClass::Digit);
            assert(s.take(d.len() as int) =~= d);
        },
        _ => {
            assert(s[0] == token_text(t)[0]);
            assert(s.skip(0) =~= s);
        },
    }
}

/// The lexer reads writable tokens back from their spaced text.
proof fn lemma_tokens_spaced(ts: Seq<TokenView>)
    requires
        forall|k: int| 0 <= k < ts.len() ==> is_writable(#[trigger] ts[k]),
    ensures
        tokens(spaced(ts)) == oks(ts) + seq![Ok::<TokenView, Seq<char>>(TokenView::Eof)],
    decreases ts.len(),
{
    if ts.len() == 0 {
        assert(scan(seq![]) == (Ok::<TokenView, Seq<char>>(TokenView::Eof), 0nat));
        assert(oks(ts) + seq![Ok::<TokenView, Seq<char>>(TokenView::Eof)] =~= seq![
            Ok::<TokenView, Seq<char>>(TokenView::Eof),
        ]);
    } else {
        let rest = spaced(ts.drop_first());
        let u = token_text(ts[0]) + rest;
        assert(is_writable(ts[0]));
        lemma_scan_token(ts[0], rest);
        lemma_scan_space(u);
        assert(spaced(ts) =~= seq![' '] + u);
        assert(spaced(ts).skip(1 + token_text(ts[0]).len() as int) =~= rest);
        lemma_tokens_spaced(ts.drop_first());
        assert(oks(ts) =~= seq![Ok::<TokenView, Seq<char>>(ts[0])] + oks(ts.drop_first()));
    }
}

proof fn lemma_oks_concat(a: Seq<TokenView>, b: Seq<TokenView>)
    ensures
        oks(a + b) == oks(a) + oks(b),
{
    assert(oks(a + b) =~= oks(a) + oks(b));
}

/// The commands of a body read back from their tokens, up to a header or the end of input.
proof fn lemma_commands_parse_tokens(cs: Seq<CommandView>, rest: Seq<Lexeme>)
    requires
        forall|j: int| 0 <= j < cs.len() ==> is_writable_command(#[trigger] cs[j]),
        starts_at_header_or_end(rest),
    ensures
        commands_parse(oks(commands_tokens(cs)) + rest) == Ok::<
            (Seq<CommandView>, nat),
            ErrorView,
        >((cs, commands_tokens(cs).len())),
    decreases cs.len(),
{
    reveal_strlit("mov");
    reveal_strlit("jal");
    let ts = oks(commands_tokens(cs)) + rest;
    if cs.len() == 0 {
        assert(oks(commands_tokens(cs)) =~= seq![]);
        assert(ts =~= rest);
        assert(commands_parse(rest) == Ok::<(Seq<CommandView>, nat), ErrorView>((seq![], 0)));
        assert(cs =~= seq![]);
    } else {
        let c = cs[0];
        let more = cs.drop_first();
        let tail = oks(commands_tokens(more)) + rest;
        lemma_oks_concat(command_tokens(c), commands_tokens(more));
        assert(ts =~= oks(command_tokens(c)) + tail);
        assert(forall|j: int| 0 <= j < more.len() ==> #[trigger] more[j] == cs[j + 1]);
        lemma_commands_parse_tokens(more, rest);
        assert(is_writable_command(cs[0]));
        assert(at(tail, 0) is Ok) by {
            if more.len() > 0 {
                assert(commands_tokens(more).len() > 0) by {
                    assert(command_tokens(more[0]).len() > 0);
                }
                assert(tail[0] == oks(commands_tokens(more))[0]);
            } else {
                assert(tail =~= rest);
            }
        }
        assert("mov"@[0] == 'm' && "jal"@[0] == 'j');
        let k = command_tokens(c).len();
        assert(forall|x: int| 0 <= x < k ==> #[trigger] ts[x] == Ok::<TokenView, Seq<char>>(
            command_tokens(c)[x],
        ));
        assert(at(ts, k as int) == at(tail, 0));
        assert(ts.skip(k as int) =~= tail);
        match c {
            CommandView::Move { kind, amount } => {
                assert(at(ts, 0) == Ok::<TokenView, Seq<char>>(TokenView::Identifier("mov"@)));
                assert(at(ts, 1) == Ok::<TokenView, Seq<char>>(TokenView::Identifier(kind)));
                assert(at(ts, 2) == Ok::<TokenView, Seq<char>>(TokenView::Comma));
                assert(at(ts, 3) == Ok::<TokenView, Seq<char>>(TokenView::Number(amount)));
                assert(!is_word(at(ts, 0), "jal"@));
            },
            CommandView::Jump { label } => {
                assert(at(ts, 0) == Ok::<TokenView, Seq<char>>(TokenView::Identifier("jal"@)));
                assert(at(ts, 1) == Ok::<TokenView, Seq<char>>(TokenView::Identifier(label)));
            },
        }
        assert(command_parse(ts) == Ok::<(CommandView, nat), ErrorView>((c, k)));
        assert(commands_parse(ts.skip(k as int)) == Ok::<(Seq<CommandView>, nat), ErrorView>(
            (more, commands_tokens(more).len()),
        ));
        assert(commands_tokens(cs) == command_tokens(c) + commands_tokens(more));
        assert(!body_ends(ts));
        assert(!(is_identifier(at(ts, 0)) && at(ts, 1) is Err));
        assert(commands_parse(ts) == Ok::<(Seq<CommandView>, nat), ErrorView>(
            (seq![c] + more, k + commands_tokens(more).len()),
        ));
        assert(seq![c] + more =~= cs);
    }
}

/// A writable program reads back from its tokens.
proof fn lemma_sections_parse_tokens(p: Seq<SectionView>)
    requires
        is_writable_program(p),
    ensures
        sections_parse(oks(program_tokens(p)) + seq![Ok::<TokenView, Seq<char>>(TokenView::Eof)])
            == Ok::<Seq<SectionView>, ErrorView>(p),
    decreases p.len(),
{
    let eof = seq![Ok::<TokenView, Seq<char>>(TokenView::Eof)];
    let ts = oks(program_tokens(p)) + eof;
    if p.len() == 0 {
        assert(oks(program_tokens(p)) =~= seq![]);
        assert(ts =~= eof);
        assert(p =~= seq![]);
    } else {
        let s = p[0];
        let more = p.drop_first();
        let rest = oks(program_tokens(more)) + eof;
        assert(is_writable_program(more)) by {
            assert forall|i: int| 0 <= i < more.len() implies is_writable_section(
                #[trigger] more[i],
            ) by {
                assert(more[i] == p[i + 1]);
            }
        }
        lemma_sections_parse_tokens(more);
        assert(starts_at_header_or_end(rest)) by {
            if more.len() > 0 {
                assert(rest[0] == Ok::<TokenView, Seq<char>>(
                    TokenView::Identifier(more[0].name),
                ));
                assert(rest[1] == Ok::<TokenView, Seq<char>>(TokenView::Colon));
            } else {
                assert(rest =~= eof);
            }
        }
        assert(is_writable_section(p[0]));
        lemma_commands_parse_tokens(s.commands, rest);
        let body = oks(commands_tokens(s.commands)) + rest;
        lemma_oks_concat(section_tokens(s), program_tokens(more));
        lemma_oks_concat(
            seq![TokenView::Identifier(s.name), TokenView::Colon],
            commands_tokens(s.commands),
        );
        assert(ts =~= seq![
            Ok::<TokenView, Seq<char>>(TokenView::Identifier(s.name)),
            Ok::<TokenView, Seq<char>>(TokenView::Colon),
        ] + body);
        assert(ts.skip(2) =~= body);
        assert(at(body, 0) is Ok) by {
            if s.commands.len() > 0 {
                assert(command_tokens(s.commands[0]).len() > 0);
                assert(body[0] == oks(commands_tokens(s.commands))[0]);
            } else {
                assert(body =~= rest);
            }
        }
        let m = commands_tokens(s.commands).len();
        assert(ts.skip(2 + m as int) =~= rest);
        assert(section_parse(ts) == Ok::<(SectionView, nat), ErrorView>((s, 2 + m)));
        assert(seq![s] + more =~= p);
    }
}

proof fn lemma_program_tokens_writable(p: Seq<SectionView>)
    requires
        is_writable_program(p),
    ensures
        forall|k: int|
            0 <= k < program_tokens(p).len() ==> is_writable(#[trigger] program_tokens(p)[k]),
    decreases p.len(),
{
    if p.len() > 0 {
        let more = p.drop_first();
        assert(is_writable_program(more)) by {
            assert forall|i: int| 0 <= i < more.len() implies is_writable_section(
                #[trigger] more[i],
            ) by {
                assert(more[i] == p[i + 1]);
            }
        }
        lemma_program_tokens_writable(more);
        assert(is_writable_section(p[0]));
        lemma_commands_tokens_writable(p[0].commands);
        let first = section_tokens(p[0]);
        assert(program_tokens(p) == first + program_tokens(more));
        assert forall|k: int| 0 <= k < program_tokens(p).len() implies is_writable(
            #[trigger] program_tokens(p)[k],
        ) by {
            if k >= first.len() {
                assert(program_tokens(p)[k] == program_tokens(more)[k - first.len()]);
            } else if k >= 2 {
                assert(first[k] == commands_tokens(p[0].commands)[k - 2]);
            }
        }
    }
}

proof fn lemma_commands_tokens_writable(cs: Seq<CommandView>)
    requires
        forall|j: int| 0 <= j < cs.len() ==> is_writable_command(#[trigger] cs[j]),
    ensures
        forall|k: int|
            0 <= k < commands_tokens(cs).len() ==> is_writable(#[trigger] commands_tokens(cs)[k]),
    decreases cs.len(),
{
    reveal_strlit("mov");
    reveal_strlit("jal");
    if cs.len() > 0 {
        let more = cs.drop_first();
        assert(forall|j: int| 0 <= j < more.len() ==> #[trigger] more[j] == cs[j + 1]);
        lemma_commands_tokens_writable(more);
        assert(is_writable_command(cs[0]));
        assert(is_name("mov"@) && is_name("jal"@));
        let first = command_tokens(cs[0]);
        assert(commands_tokens(cs) == first + commands_tokens(more));
        assert forall|k: int| 0 <= k < commands_tokens(cs).len() implies is_writable(
            #[trigger] commands_tokens(cs)[k],
        ) by {
            if k >= first.len() {
                assert(commands_tokens(cs)[k] == commands_tokens(more)[k - first.len()]);
            }
        }
    }
}

/// Writing a program back as source text and parsing that text gives the same program.
pub proof fn lemma_round_trip(p: Seq<SectionView>)
    requires
        is_writable_program(p),
    ensures
        parse_source(render(p)) == Ok::<Seq<SectionView>, ErrorView>(p),
{
    lemma_program_tokens_writable(p);
    lemma_tokens_spaced(program_tokens(p));
    lemma_sections_parse_tokens(p);
}

/// Every token of the stream, but the end of input, can be written back.
pub open spec fn lexically_valid(ts: Seq<Lexeme>) -> bool {
    forall|k: int|
        0 <= k < ts.len() && #[trigger] ts[k] is Ok && ts[k]->Ok_0 != TokenView::Eof
            ==> is_writable(ts[k]->Ok_0)
}

proof fn lemma_digits_nonnegative(d: Seq<char>)
    requires
        forall|k: int| 0 <= k < d.len() ==> is_digit_char(#[trigger] d[k]),
    ensures
        digits_value(d) >= 0,
    decreases d.len(),
{
    if d.len() > 0 {
        assert(is_digit_char(d[d.len() - 1]));
        lemma_digits_nonnegative(d.drop_last());
    }
}

proof fn lemma_tokens_valid(s: Seq<char>)
    ensures
        lexically_valid(tokens(s)),
    decreases s.len(),
{
    let k = run_length(s, CharClass::Whitespace);
    lemma_run_length_bound(s, CharClass::Whitespace);
    let r = s.skip(k as int);
    lemma_run_length_bound(r, CharClass::Digit);
    lemma_run_length_bound(r, CharClass::Word);
    if r.len() > 0 && is_digit_char(r[0]) {
        let d = r.take(run_length(r, CharClass::Digit) as int);
        lemma_digits_nonnegative(d);
    } else if r.len() > 0 && r[0] != ':' && r[0] != ',' {
        let name = r.take(run_length(r, CharClass::Word) as int);
        assert(is_name(name));
    }
    lemma_scan_progress(s);
    let l = scan(s).0;
    if !ends_stream(l) {
        let n = scan(s).1;
        lemma_tokens_valid(s.skip(n as int));
        let ts = tokens(s);
        assert forall|j: int|
            0 <= j < ts.len() && #[trigger] ts[j] is Ok && ts[j]->Ok_0 != TokenView::Eof implies is_writable(
            ts[j]->Ok_0,
        ) by {
            if j > 0 {
                assert(ts[j] == tokens(s.skip(n as int))[j - 1]);
            }
        }
    }
}

proof fn lemma_skip_valid(ts: Seq<Lexeme>, k: int)
    requires
        lexically_valid(ts),
        0 <= k <= ts.len(),
    ensures
        lexically_valid(ts.skip(k)),
{
    assert forall|j: int|
        0 <= j < ts.skip(k).len() && #[trigger] ts.skip(k)[j] is Ok && ts.skip(k)[j]->Ok_0
            != TokenView::Eof implies is_writable(ts.skip(k)[j]->Ok_0) by {
        assert(ts.skip(k)[j] == ts[j + k]);
    }
}

proof fn lemma_at_valid(ts: Seq<Lexeme>, i: int)
    requires
        lexically_valid(ts),
    ensures
        at(ts, i) is Ok && at(ts, i)->Ok_0 != TokenView::Eof ==> is_writable(at(ts, i)->Ok_0),
{
    if 0 <= i < ts.len() {
        assert(at(ts, i) == ts[i]);
    }
}

proof fn lemma_commands_valid(ts: Seq<Lexeme>)
    requires
        lexically_valid(ts),
        commands_parse(ts) is Ok,
    ensures
        forall|j: int|
            0 <= j < commands_parse(ts)->Ok_0.0.len() ==> is_writable_command(
                #[trigger] commands_parse(ts)->Ok_0.0[j],
            ),
    decreases ts.len(),
{
    if !(is_identifier(at(ts, 0)) && at(ts, 1) is Err) && !body_ends(ts) {
        lemma_at_valid(ts, 1);
        lemma_at_valid(ts, 3);
        lemma_command_length(ts);
        let c = command_parse(ts)->Ok_0.0;
        let k = command_parse(ts)->Ok_0.1;
        assert(is_writable_command(c));
        lemma_skip_valid(ts, k as int);
        lemma_commands_valid(ts.skip(k as int));
        let cs = commands_parse(ts)->Ok_0.0;
        let more = commands_parse(ts.skip(k as int))->Ok_0.0;
        assert(cs == seq![c] + more);
        assert forall|j: int| 0 <= j < cs.len() implies is_writable_command(#[trigger] cs[j]) by {
            if j > 0 {
                assert(cs[j] == more[j - 1]);
            }
        }
    }
}

proof fn lemma_sections_valid(ts: Seq<Lexeme>)
    requires
        lexically_valid(ts),
        sections_parse(ts) is Ok,
    ensures
        is_writable_program(sections_parse(ts)->Ok_0),
    decreases ts.len(),
{
    if at(ts, 0) is Ok && at(ts, 0) != Ok::<TokenView, Seq<char>>(TokenView::Eof) {
        lemma_at_valid(ts, 0);
        lemma_section_length(ts);
        let sec = section_parse(ts)->Ok_0.0;
        let k = section_parse(ts)->Ok_0.1;
        lemma_skip_valid(ts, 2);
        lemma_commands_valid(ts.skip(2));
        assert(is_writable_section(sec));
        lemma_skip_valid(ts, k as int);
        lemma_sections_valid(ts.skip(k as int));
        let ss = sections_parse(ts)->Ok_0;
        let more = sections_parse(ts.skip(k as int))->Ok_0;
        assert(ss == seq![sec] + more);
        assert forall|i: int| 0 <= i < ss.len() implies is_writable_section(#[trigger] ss[i]) by {
            if i > 0 {
                assert(ss[i] == more[i - 1]);
            }
        }
    }
}

/// Any source that parses gives a program whose rendering parses back to the same program.
pub proof fn lemma_source_round_trip(s: Seq<char>)
    requires
        parse_source(s) is Ok,
    ensures
        parse_source(render(parse_source(s)->Ok_0)) == parse_source(s),
{
    lemma_tokens_valid(s);
    lemma_sections_valid(tokens(s));
    lemma_round_trip(parse_source(s)->Ok_0);
}

} // verus!
