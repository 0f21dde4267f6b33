use vstd::prelude::*;

use crate::ir::{Command, CommandView, Program, Section, SectionView};
use crate::lexer::{ends_stream, lexeme_of, tokens, Lexeme, Lexer, Token, TokenView};
use crate::{CompilerError, ErrorView};

verus! {

/// The `i`-th lexeme of `ts`; past the end of the stream there is only end of input.
pub open spec fn at(ts: Seq<Lexeme>, i: int) -> Lexeme {
    if 0 <= i < ts.len() {
        ts[i]
    } else {
        Ok(TokenView::Eof)
    }
}

pub open spec fn is_identifier(l: Lexeme) -> bool {
    l is Ok && l->Ok_0 is Identifier
}

pub open spec fn is_word(l: Lexeme, w: Seq<char>) -> bool {
    l == Ok::<TokenView, Seq<char>>(TokenView::Identifier(w))
}

/// The parser consumed `k` lexemes and moves on to `ts[k]`, which fails where the lexer failed.
pub open spec fn advanced<X>(ts: Seq<Lexeme>, k: nat, x: X) -> Result<(X, nat), ErrorView> {
    match at(ts, k as int) {
        Err(m) => Err(ErrorView::Lexer(m)),
        Ok(_) => Ok((x, k)),
    }
}

/// `Command := 'jal' Identifier | 'mov' Identifier ',' Number`: the command at the head of
/// `ts` and the number of lexemes it takes.
pub open spec fn command_parse(ts: Seq<Lexeme>) -> Result<(CommandView, nat), ErrorView> {
    if is_word(at(ts, 0), "jal"@) {
        match at(ts, 1) {
            Err(m) => Err(ErrorView::Lexer(m)),
            Ok(TokenView::Identifier(label)) => advanced(ts, 2, CommandView::Jump { label }),
            Ok(_) => Err(ErrorView::Parser("Expected label after jal"@)),
        }
    } else if is_word(at(ts, 0), "mov"@) {
        match at(ts, 1) {
            Err(m) => Err(ErrorView::Lexer(m)),
            Ok(TokenView::Identifier(kind)) => match at(ts, 2) {
                Err(m) => Err(ErrorView::Lexer(m)),
                Ok(TokenView::Comma) => match at(ts, 3) {
                    Err(m) => Err(ErrorView::Lexer(m)),
                    Ok(TokenView::Number(amount)) => advanced(
                        ts,
                        4,
                        CommandView::Move { kind, amount },
                    ),
                    Ok(_) => Err(ErrorView::Parser("Expected number"@)),
                },
                Ok(_) => Err(ErrorView::Parser("Expected ',' after direction"@)),
            },
            Ok(_) => Err(ErrorView::Parser("Expected direction"@)),
        }
    } else {
        Err(ErrorView::Parser("Expected 'mov' command or 'jal'"@))
    }
}

/// Whether a section body ends before the head of `ts`: at the end of input, or at an
/// identifier followed by a colon, which starts the next section.
pub open spec fn body_ends(ts: Seq<Lexeme>) -> bool {
    at(ts, 0) == Ok::<TokenView, Seq<char>>(TokenView::Eof) || (is_identifier(at(ts, 0)) && at(
        ts,
        1,
    ) == Ok::<TokenView, Seq<char>>(TokenView::Colon))
}

/// `Command*`: the commands of a section body and the number of lexemes they take.
pub open spec fn commands_parse(ts: Seq<Lexeme>) -> Result<(Seq<CommandView>, nat), ErrorView>
    decreases ts.len(),
    via commands_parse_decreases
{
    if is_identifier(at(ts, 0)) && at(ts, 1) is Err {
        Err(ErrorView::Lexer(at(ts, 1)->Err_0))
    } else if body_ends(ts) {
        Ok((seq![], 0))
    } else {
        match command_parse(ts) {
            Err(e) => Err(e),
            Ok((c, k)) => match commands_parse(ts.skip(k as int)) {
                Err(e) => Err(e),
                Ok((cs, m)) => Ok((seq![c] + cs, k + m)),
            },
        }
    }
}

#[via_fn]
proof fn commands_parse_decreases(ts: Seq<Lexeme>) {
    lemma_command_length(ts);
}

/// `Section := Identifier ':' Command*`.
pub open spec fn section_parse(ts: Seq<Lexeme>) -> Result<(SectionView, nat), ErrorView> {
    match at(ts, 0) {
        Ok(TokenView::Identifier(name)) => match at(ts, 1) {
            Err(m) => Err(ErrorView::Lexer(m)),
            Ok(TokenView::Colon) => match at(ts, 2) {
                Err(m) => Err(ErrorView::Lexer(m)),
                Ok(_) => match commands_parse(ts.skip(2)) {
                    Err(e) => Err(e),
                    Ok((commands, m)) => Ok((SectionView { name, commands }, 2 + m)),
                },
            },
            Ok(_) => Err(ErrorView::Parser("Expected ':' after section name"@)),
        },
        _ => Err(ErrorView::Parser("Expected section name"@)),
    }
}

/// `Program := Section* EndOfInput`.
pub open spec fn sections_parse(ts: Seq<Lexeme>) -> Result<Seq<SectionView>, ErrorView>
    decreases ts.len(),
    via sections_parse_decreases
{
    match at(ts, 0) {
        Err(m) => Err(ErrorView::Lexer(m)),
        Ok(TokenView::Eof) => Ok(seq![]),
        Ok(_) => match section_parse(ts) {
            Err(e) => Err(e),
            Ok((s, k)) => match sections_parse(ts.skip(k as int)) {
                Err(e) => Err(e),
                Ok(ss) => Ok(seq![s] + ss),
            },
        },
    }
}

#[via_fn]
proof fn sections_parse_decreases(ts: Seq<Lexeme>) {
    lemma_section_length(ts);
}

/// The program that a source text denotes, or the first error in it.
pub open spec fn parse_source(s: Seq<char>) -> Result<Seq<SectionView>, ErrorView> {
    sections_parse(tokens(s))
}

pub proof fn lemma_command_length(ts: Seq<Lexeme>)
    ensures
        command_parse(ts) is Ok ==> 2 <= command_parse(ts)->Ok_0.1 <= ts.len(),
{
}

pub proof fn lemma_commands_length(ts: Seq<Lexeme>)
    ensures
        commands_parse(ts) is Ok ==> commands_parse(ts)->Ok_0.1 <= ts.len(),
    decreases ts.len(),
{
    if !(is_identifier(at(ts, 0)) && at(ts, 1) is Err) && !body_ends(ts) {
        lemma_command_length(ts);
        if command_parse(ts) is Ok {
            let k = command_parse(ts)->Ok_0.1;
            lemma_commands_length(ts.skip(k as int));
        }
    }
}

pub proof fn lemma_section_length(ts: Seq<Lexeme>)
    ensures
        section_parse(ts) is Ok ==> 2 <= section_parse(ts)->Ok_0.1 <= ts.len(),
{
    if ts.len() >= 2 {
        lemma_commands_length(ts.skip(2));
    }
}

/// Recursive-descent parser over the lexer's stream, with one lexeme of lookahead.
pub struct Parser {
    lexer: Lexer,
    current_token: Result<Token, String>,
}

impl Parser {
    pub closed spec fn wf(&self) -> bool {
        self.lexer.wf()
    }

    pub closed spec fn current(&self) -> Lexeme {
        lexeme_of(self.current_token)
    }

    /// The lexemes from the current one to the end of the stream.
    pub closed spec fn remaining(&self) -> Seq<Lexeme> {
        if ends_stream(self.current()) {
            seq![self.current()]
        } else {
            seq![self.current()] + tokens(self.lexer.rest())
        }
    }

    pub fn new(input: String) -> (r: Parser)
        ensures
            r.wf(),
            r.remaining() == tokens(input@),
    {
        let mut lexer = Lexer::new(input);
        let current_token = lexer.next_token();
        Parser { lexer, current_token }
    }

    /// Parses the whole stream into a program, or returns the first error.
    pub fn parse(&mut self) -> (r: Result<Program, CompilerError>)
        requires
            old(self).wf(),
        ensures
            match sections_parse(old(self).remaining()) {
                Ok(ss) => r is Ok && r->Ok_0@ == ss,
                Err(e) => r is Err && r->Err_0@ == e,
            },
    {
        let ghost ts0 = self.remaining();
        if let Err(m) = &self.current_token {
            return Err(CompilerError::LexerError(m.clone()));
        }
        let mut sections: Vec<Section> = Vec::new();
        let ghost mut consumed: nat = 0;
        loop
            invariant
                self.wf(),
                self.current() is Ok,
                ts0 == old(self).remaining(),
                consumed <= ts0.len(),
                self.remaining() == ts0.skip(consumed as int),
                match sections_parse(self.remaining()) {
                    Ok(ss) => sections_parse(ts0) == Ok::<Seq<SectionView>, ErrorView>(
                        sections@.map_values(|s: Section| s@) + ss,
                    ),
                    Err(e) => sections_parse(ts0) == Err::<Seq<SectionView>, ErrorView>(e),
                },
            ensures
                self.current() == Ok::<TokenView, Seq<char>>(TokenView::Eof),
                sections_parse(ts0) == Ok::<Seq<SectionView>, ErrorView>(
                    sections@.map_values(|s: Section| s@),
                ),
            decreases self.remaining().len(),
        {
            if let Ok(Token::Eof) = &self.current_token {
                assert(sections@.map_values(|s: Section| s@) + seq![] =~= sections@.map_values(
                    |s: Section| s@,
                ));
                break;
            }
            let ghost ts = self.remaining();
            assert(at(ts, 0) == self.current());
            let section = match self.parse_section() {
                Ok(s) => s,
                Err(e) => {
                    return Err(e);
                },
            };
            proof {
                let k = section_parse(ts)->Ok_0.1;
                lemma_section_length(ts);
                assert(ts.skip(k as int) =~= ts0.skip((consumed + k) as int));
                consumed = consumed + k;
            }
            let ghost before = sections@.map_values(|s: Section| s@);
            sections.push(section);
            assert(sections@.map_values(|s: Section| s@) =~= before.push(section@));
            proof {
                match sections_parse(self.remaining()) {
                    Ok(ss) => {
                        assert(before + (seq![section@] + ss) =~= before.push(section@) + ss);
                    },
                    Err(e) => {},
                }
            }
        }
        Ok(Program { sections })
    }

    fn parse_section(&mut self) -> (r: Result<Section, CompilerError>)
        requires
            old(self).wf(),
            old(self).current() is Ok,
            !ends_stream(old(self).current()),
        ensures
            final(self).wf(),
            match section_parse(old(self).remaining()) {
                Ok((s, k)) => {
                    &&& r is Ok
                    &&& r->Ok_0@ == s
                    &&& final(self).current() is Ok
                    &&& final(self).remaining() == old(self).remaining().skip(k as int)
                },
                Err(e) => r is Err && r->Err_0@ == e,
            },
    {
        let ghost ts = self.remaining();
        let name = match &self.current_token {
            Ok(Token::Identifier(name)) => name.clone(),
            _ => {
                return Err(CompilerError::ParserError(String::from_str("Expected section name")));
            },
        };
        if let Err(e) = self.advance() {
            return Err(e);
        }
        match &self.current_token {
            Ok(Token::Colon) => {},
            _ => {
                return Err(
                    CompilerError::ParserError(String::from_str("Expected ':' after section name")),
                );
            },
        }
        if let Err(e) = self.advance() {
            return Err(e);
        }
        assert(ts.skip(1).skip(1) =~= ts.skip(2));
        let ghost ts0 = self.remaining();
        let mut commands: Vec<Command> = Vec::new();
        let ghost mut consumed: nat = 0;
        loop
            invariant
                self.wf(),
                self.current() is Ok,
                ts == old(self).remaining(),
                ts0 == ts.skip(2),
                section_parse(ts) == match commands_parse(ts0) {
                    Err(e) => Err(e),
                    Ok((cs, m)) => Ok((SectionView { name: name@, commands: cs }, 2 + m)),
                },
                consumed <= ts0.len(),
                self.remaining() == ts0.skip(consumed as int),
                match commands_parse(self.remaining()) {
                    Ok((cs, m)) => commands_parse(ts0) == Ok::<
                        (Seq<CommandView>, nat),
                        ErrorView,
                    >((commands@.map_values(|c: Command| c@) + cs, consumed + m)),
                    Err(e) => commands_parse(ts0) == Err::<(Seq<CommandView>, nat), ErrorView>(e),
                },
            ensures
                self.wf(),
                self.current() is Ok,
                self.remaining() == ts0.skip(consumed as int),
                commands_parse(ts0) == Ok::<(Seq<CommandView>, nat), ErrorView>(
                    (commands@.map_values(|c: Command| c@), consumed),
                ),
            decreases self.remaining().len(),
        {
            let ghost cur = self.remaining();
            let at_end = match &self.current_token {
                Ok(Token::Eof) => true,
                Ok(Token::Identifier(_)) => match self.peek_next_token() {
                    Err(m) => {
                        return Err(CompilerError::LexerError(m));
                    },
                    Ok(Token::Colon) => true,
                    Ok(_) => false,
                },
                _ => false,
            };
            if at_end {
                assert(commands@.map_values(|c: Command| c@) + seq![] =~= commands@.map_values(
                    |c: Command| c@,
                ));
                break;
            }
            let command = match self.parse_command() {
                Ok(c) => c,
                Err(e) => {
                    return Err(e);
                },
            };
            proof {
                let k = command_parse(cur)->Ok_0.1;
                lemma_command_length(cur);
                assert(cur.skip(k as int) =~= ts0.skip((consumed + k) as int));
                match commands_parse(self.remaining()) {
                    Ok((cs, m)) => {
                        let before = commands@.map_values(|c: Command| c@);
                        assert(before + (seq![command@] + cs) =~= before.push(command@) + cs);
                    },
                    Err(e) => {},
                }
                consumed = consumed + k;
            }
            let ghost before = commands@.map_values(|c: Command| c@);
            commands.push(command);
            assert(commands@.map_values(|c: Command| c@) =~= before.push(command@));
        }
        proof {
            assert(ts0.skip(consumed as int) =~= ts.skip((2 + consumed) as int));
        }
        Ok(Section { name, commands })
    }

    fn parse_command(&mut self) -> (r: Result<Command, CompilerError>)
        requires
            old(self).wf(),
            old(self).current() is Ok,
            !ends_stream(old(self).current()),
        ensures
            final(self).wf(),
            match command_parse(old(self).remaining()) {
                Ok((c, k)) => {
                    &&& r is Ok
                    &&& r->Ok_0@ == c
                    &&& final(self).current() is Ok
                    &&& final(self).remaining() == old(self).remaining().skip(k as int)
                },
                Err(e) => r is Err && r->Err_0@ == e,
            },
    {
        let ghost ts = self.remaining();
        let jal = String::from_str("jal");
        let mov = String::from_str("mov");
        let is_jal = match &self.current_token {
            Ok(Token::Identifier(cmd)) => cmd.eq(&jal),
            _ => false,
        };
        if is_jal {
            if let Err(e) = self.advance() {
                return Err(e);
            }
            let label = match &self.current_token {
                Ok(Token::Identifier(label)) => label.clone(),
                _ => {
                    return Err(
                        CompilerError::ParserError(String::from_str("Expected label after jal")),
                    );
                },
            };
            if let Err(e) = self.advance() {
                return Err(e);
            }
            assert(ts.skip(1).skip(1) =~= ts.skip(2));
            return Ok(Command::Jump { label });
        }
        let is_mov = match &self.current_token {
            Ok(Token::Identifier(cmd)) => cmd.eq(&mov),
            _ => false,
        };
        if !is_mov {
            return Err(
                CompilerError::ParserError(String::from_str("Expected 'mov' command or 'jal'")),
            );
        }
        if let Err(e) = self.advance() {
            return Err(e);
        }
        let kind = match &self.current_token {
            Ok(Token::Identifier(kind)) => kind.clone(),
            _ => {
                return Err(CompilerError::ParserError(String::from_str("Expected direction")));
            },
        };
        if let Err(e) = self.advance() {
            return Err(e);
        }
        match &self.current_token {
            Ok(Token::Comma) => {},
            _ => {
                return Err(
                    CompilerError::ParserError(String::from_str("Expected ',' after direction")),
                );
            },
        }
        if let Err(e) = self.advance() {
            return Err(e);
        }
        let amount = match &self.current_token {
            Ok(Token::Number(n)) => *n,
            _ => {
                return Err(CompilerError::ParserError(String::from_str("Expected number")));
            },
        };
        if let Err(e) = self.advance() {
            return Err(e);
        }
        assert(ts.skip(1).skip(1).skip(1).skip(1) =~= ts.skip(4));
        Ok(Command::Move { kind, amount })
    }

    /// Moves to the next lexeme; fails where the lexer fails.
    fn advance(&mut self) -> (r: Result<(), CompilerError>)
        requires
            old(self).wf(),
            !ends_stream(old(self).current()),
        ensures
            final(self).wf(),
            final(self).current() == at(old(self).remaining(), 1),
            final(self).remaining() == old(self).remaining().skip(1),
            match at(old(self).remaining(), 1) {
                Ok(_) => r is Ok,
                Err(m) => r is Err && r->Err_0@ == ErrorView::Lexer(m),
            },
    {
        let ghost ts = self.remaining();
        self.current_token = self.lexer.next_token();
        assert(self.remaining() =~= ts.skip(1));
        match &self.current_token {
            Err(m) => Err(CompilerError::LexerError(m.clone())),
            Ok(_) => Ok(()),
        }
    }

    /// The lexeme after the current one.
    fn peek_next_token(&self) -> (r: Result<Token, String>)
        requires
            self.wf(),
            !ends_stream(self.current()),
        ensures
            lexeme_of(r) == at(self.remaining(), 1),
    {
        self.lexer.peek_next_token()
    }
}

} // verus!
