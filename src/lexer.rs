use vstd::prelude::*;

verus! {

/// A lexical token of the motion language.
#[derive(Debug, PartialEq, Clone)]
pub enum Token {
    Colon,
    Comma,
    Identifier(String),
    Number(i32),
    Eof,
}

/// The mathematical value of a [`Token`].
pub enum TokenView {
    Colon,
    Comma,
    Identifier(Seq<char>),
    Number(i32),
    Eof,
}

impl View for Token {
    type V = TokenView;

    open spec fn view(&self) -> TokenView {
        match self {
            Token::Colon => TokenView::Colon,
            Token::Comma => TokenView::Comma,
            Token::Identifier(s) => TokenView::Identifier(s@),
            Token::Number(n) => TokenView::Number(*n),
            Token::Eof => TokenView::Eof,
        }
    }
}

/// One step of the lexer: a token, or the message of a lexical error.
pub type Lexeme = Result<TokenView, Seq<char>>;

pub open spec fn lexeme_of(r: Result<Token, String>) -> Lexeme {
    match r {
        Ok(t) => Ok(t@),
        Err(m) => Err(m@),
    }
}

/// The Unicode `White_Space` code points.
pub open spec fn spec_is_whitespace(c: char) -> bool {
    let n = c as u32;
    (0x09 <= n <= 0x0d) || n == 0x20 || n == 0x85 || n == 0xa0 || n == 0x1680 || (0x2000 <= n
        <= 0x200a) || n == 0x2028 || n == 0x2029 || n == 0x202f || n == 0x205f || n == 0x3000
}

/// Whether `c` separates tokens; agrees with `char::is_whitespace`.
pub fn is_whitespace(c: char) -> (r: bool)
    ensures
        r == spec_is_whitespace(c),
{
    let n = c as u32;
    (0x09 <= n && n <= 0x0d) || n == 0x20 || n == 0x85 || n == 0xa0 || n == 0x1680 || (0x2000
        <= n && n <= 0x200a) || n == 0x2028 || n == 0x2029 || n == 0x202f || n == 0x205f || n
        == 0x3000
}

pub open spec fn is_digit_char(c: char) -> bool {
    '0' <= c && c <= '9'
}

/// Characters that end an identifier.
pub open spec fn is_delimiter(c: char) -> bool {
    spec_is_whitespace(c) || c == ':' || c == ','
}

/// The classes of characters whose maximal runs the lexer scans.
#[derive(Clone, Copy)]
pub enum CharClass {
    Whitespace,
    Digit,
    Word,
}

pub open spec fn in_class(cls: CharClass, c: char) -> bool {
    match cls {
        CharClass::Whitespace => spec_is_whitespace(c),
        CharClass::Digit => is_digit_char(c),
        CharClass::Word => !is_delimiter(c),
    }
}

/// Length of the longest prefix of `s` whose characters are all in `cls`.
pub open spec fn run_length(s: Seq<char>, cls: CharClass) -> nat
    decreases s.len(),
{
    if s.len() > 0 && in_class(cls, s[0]) {
        1 + run_length(s.drop_first(), cls)
    } else {
        0
    }
}

pub open spec fn digit_value(c: char) -> int {
    (c as u32) as int - ('0' as u32) as int
}

/// The number that a run of decimal digits denotes.
pub open spec fn digits_value(d: Seq<char>) -> int
    decreases d.len(),
{
    if d.len() == 0 {
        0
    } else {
        digits_value(d.drop_last()) * 10 + digit_value(d.last())
    }
}

pub open spec fn out_of_range_message(digits: Seq<char>) -> Seq<char> {
    "Number out of range: "@ + digits
}

/// The first lexeme of `s`, and how many characters it takes, leading whitespace included.
pub open spec fn scan(s: Seq<char>) -> (Lexeme, nat) {
    let k = run_length(s, CharClass::Whitespace);
    let r = s.skip(k as int);
    if r.len() == 0 {
        (Ok(TokenView::Eof), k)
    } else if r[0] == ':' {
        (Ok(TokenView::Colon), k + 1)
    } else if r[0] == ',' {
        (Ok(TokenView::Comma), k + 1)
    } else if is_digit_char(r[0]) {
        let n = run_length(r, CharClass::Digit);
        let d = r.take(n as int);
        if digits_value(d) <= i32::MAX {
            (Ok(TokenView::Number(digits_value(d) as i32)), k + n)
        } else {
            (Err(out_of_range_message(d)), k + n)
        }
    } else {
        let n = run_length(r, CharClass::Word);
        (Ok(TokenView::Identifier(r.take(n as int))), k + n)
    }
}

/// A lexeme after which the lexer yields nothing new.
pub open spec fn ends_stream(l: Lexeme) -> bool {
    l is Err || l == Ok::<TokenView, Seq<char>>(TokenView::Eof)
}

/// Every lexeme of `s` in order, up to and including the end of input or the first error.
pub open spec fn tokens(s: Seq<char>) -> Seq<Lexeme>
    decreases s.len(),
    via tokens_decreases
{
    let (l, n) = scan(s);
    if ends_stream(l) {
        seq![l]
    } else {
        seq![l] + tokens(s.skip(n as int))
    }
}

#[via_fn]
proof fn tokens_decreases(s: Seq<char>) {
    lemma_scan_progress(s);
}

pub proof fn lemma_run_length_bound(s: Seq<char>, cls: CharClass)
    ensures
        run_length(s, cls) <= s.len(),
        forall|j: int| 0 <= j < run_length(s, cls) ==> in_class(cls, #[trigger] s[j]),
        run_length(s, cls) < s.len() ==> !in_class(cls, s[run_length(s, cls) as int]),
    decreases s.len(),
{
    if s.len() > 0 && in_class(cls, s[0]) {
        lemma_run_length_bound(s.drop_first(), cls);
        assert forall|j: int| 0 <= j < run_length(s, cls) implies in_class(cls, #[trigger] s[j]) by {
            if j > 0 {
                assert(s[j] == s.drop_first()[j - 1]);
            }
        }
    }
}

/// A lexeme that does not end the stream consumes at least one character.
pub proof fn lemma_scan_progress(s: Seq<char>)
    ensures
        scan(s).1 <= s.len(),
        !ends_stream(scan(s).0) ==> scan(s).1 > 0,
{
    let k = run_length(s, CharClass::Whitespace);
    lemma_run_length_bound(s, CharClass::Whitespace);
    let r = s.skip(k as int);
    lemma_run_length_bound(r, CharClass::Digit);
    lemma_run_length_bound(r, CharClass::Word);
}

/// A prefix whose characters are all in `cls` extends the run by its length.
pub proof fn lemma_run_concat(a: Seq<char>, b: Seq<char>, cls: CharClass)
    requires
        forall|k: int| 0 <= k < a.len() ==> in_class(cls, #[trigger] a[k]),
    ensures
        run_length(a + b, cls) == a.len() + run_length(b, cls),
    decreases a.len(),
{
    if a.len() == 0 {
        assert(a + b =~= b);
    } else {
        assert((a + b).drop_first() =~= a.drop_first() + b);
        assert(in_class(cls, a[0]));
        lemma_run_concat(a.drop_first(), b, cls);
    }
}

/// A run that ends inside a common prefix of two sequences has the same length in both.
pub proof fn lemma_run_agree(a: Seq<char>, b: Seq<char>, cls: CharClass, m: int)
    requires
        m <= a.len(),
        m <= b.len(),
        a.take(m) == b.take(m),
        run_length(a, cls) < m,
    ensures
        run_length(b, cls) == run_length(a, cls),
    decreases m,
{
    assert(a[0] == a.take(m)[0] && b[0] == b.take(m)[0]);
    if in_class(cls, a[0]) {
        assert(a.drop_first().take(m - 1) =~= a.take(m).drop_first());
        assert(b.drop_first().take(m - 1) =~= b.take(m).drop_first());
        lemma_run_agree(a.drop_first(), b.drop_first(), cls, m - 1);
    }
}

/// A valid name: non-empty, free of delimiters, and not starting with a digit.
pub open spec fn is_name(s: Seq<char>) -> bool {
    &&& s.len() > 0
    &&& !is_digit_char(s[0])
    &&& forall|k: int| 0 <= k < s.len() ==> !is_delimiter(#[trigger] s[k])
}

/// A name followed by a delimiter, or by nothing, scans as one identifier.
pub proof fn lemma_scan_name(name: Seq<char>, rest: Seq<char>)
    requires
        is_name(name),
        rest.len() == 0 || is_delimiter(rest[0]),
    ensures
        scan(name + rest) == (Ok::<TokenView, Seq<char>>(TokenView::Identifier(name)), name.len()),
{
    let s = name + rest;
    assert(s[0] == name[0]);
    assert(!is_delimiter(name[0]));
    assert(s.skip(0) =~= s);
    assert forall|k: int| 0 <= k < name.len() implies in_class(CharClass::Word, #[trigger] name[k]) by {
        assert(!is_delimiter(name[k]));
    }
    lemma_run_concat(name, rest, CharClass::Word);
    assert(s.take(name.len() as int) =~= name);
}

fn class_contains(cls: CharClass, c: char) -> (r: bool)
    ensures
        r == in_class(cls, c),
{
    match cls {
        CharClass::Whitespace => is_whitespace(c),
        CharClass::Digit => '0' <= c && c <= '9',
        CharClass::Word => !(is_whitespace(c) || c == ':' || c == ','),
    }
}

/// Relies on `String::push`: appends one character.
#[verifier::external_body]
pub(crate) fn push_char(s: &mut String, c: char)
    ensures
        final(s)@ == old(s)@.push(c),
{
    s.push(c);
}

/// The characters of `s`, in order.
fn chars_of(s: &String) -> (r: Vec<char>)
    ensures
        r@ == s@,
{
    let text = s.as_str();
    let n = text.unicode_len();
    let mut out: Vec<char> = Vec::new();
    let mut i: usize = 0;
    while i < n
        invariant
            n == text@.len(),
            text@ == s@,
            i <= n,
            out@ == text@.take(i as int),
        decreases n - i,
    {
        let c = text.get_char(i);
        out.push(c);
        i += 1;
        assert(out@ =~= text@.take(i as int));
    }
    assert(text@.take(n as int) =~= text@);
    out
}

/// Streams the tokens of a source text, one at a time.
pub struct Lexer {
    chars: Vec<char>,
    position: usize,
}

impl Lexer {
    pub closed spec fn wf(&self) -> bool {
        self.position <= self.chars.len()
    }

    /// The input that has not been consumed yet.
    pub closed spec fn rest(&self) -> Seq<char> {
        self.chars@.skip(self.position as int)
    }

    pub fn new(input: String) -> (r: Lexer)
        ensures
            r.wf(),
            r.rest() == input@,
    {
        let chars = chars_of(&input);
        let r = Lexer { chars, position: 0 };
        assert(r.chars@.skip(0) =~= input@);
        r
    }

    /// End of the run of `cls` characters that starts at `from`.
    fn run_end(&self, from: usize, cls: CharClass) -> (e: usize)
        requires
            from <= self.chars.len(),
        ensures
            from <= e <= self.chars.len(),
            e - from == run_length(self.chars@.skip(from as int), cls),
    {
        let mut e = from;
        while e < self.chars.len() && class_contains(cls, self.chars[e])
            invariant
                from <= e <= self.chars.len(),
                run_length(self.chars@.skip(from as int), cls) == (e - from) + run_length(
                    self.chars@.skip(e as int),
                    cls,
                ),
            decreases self.chars.len() - e,
        {
            assert(self.chars@.skip(e as int).drop_first() =~= self.chars@.skip(e + 1));
            e += 1;
        }
        e
    }

    /// The characters in `[start, end)` as a string.
    fn text(&self, start: usize, end: usize) -> (r: String)
        requires
            start <= end <= self.chars.len(),
        ensures
            r@ == self.chars@.subrange(start as int, end as int),
    {
        let mut r = String::new();
        let mut i = start;
        while i < end
            invariant
                start <= i <= end <= self.chars.len(),
                r@ == self.chars@.subrange(start as int, i as int),
            decreases end - i,
        {
            push_char(&mut r, self.chars[i]);
            i += 1;
            assert(r@ =~= self.chars@.subrange(start as int, i as int));
        }
        r
    }

    /// The value of the digits in `[start, end)`, or `None` where it exceeds `i32::MAX`.
    fn number_value(&self, start: usize, end: usize) -> (r: Option<i32>)
        requires
            start <= end <= self.chars.len(),
            forall|j: int| start <= j < end ==> is_digit_char(#[trigger] self.chars@[j]),
        ensures
            match r {
                Some(v) => v as int == digits_value(self.chars@.subrange(start as int, end as int)),
                None => digits_value(self.chars@.subrange(start as int, end as int)) > i32::MAX,
            },
    {
        let mut v: i32 = 0;
        let mut fits = true;
        let mut i = start;
        while i < end
            invariant
                start <= i <= end <= self.chars.len(),
                forall|j: int| start <= j < end ==> is_digit_char(#[trigger] self.chars@[j]),
                0 <= v,
                fits ==> v as int == digits_value(self.chars@.subrange(start as int, i as int)),
                !fits ==> digits_value(self.chars@.subrange(start as int, i as int)) > i32::MAX,
            decreases end - i,
        {
            let c = self.chars[i];
            let d = (c as u32 - '0' as u32) as i64;
            let ghost before = self.chars@.subrange(start as int, i as int);
            assert(self.chars@.subrange(start as int, i + 1).drop_last() =~= before);
            if fits {
                let w: i64 = v as i64 * 10 + d;
                if w > i32::MAX as i64 {
                    fits = false;
                } else {
                    v = w as i32;
                }
            }
            i += 1;
        }
        if fits {
            Some(v)
        } else {
            None
        }
    }

    /// The lexeme that starts at `from`, and the position after it.
    fn scan_at(&self, from: usize) -> (r: (Result<Token, String>, usize))
        requires
            from <= self.chars.len(),
        ensures
            r.1 <= self.chars.len(),
            lexeme_of(r.0) == scan(self.chars@.skip(from as int)).0,
            r.1 == from + scan(self.chars@.skip(from as int)).1,
    {
        let ghost s = self.chars@.skip(from as int);
        let start = self.run_end(from, CharClass::Whitespace);
        let ghost r = s.skip(start - from);
        assert(r =~= self.chars@.skip(start as int));
        if start >= self.chars.len() {
            return (Ok(Token::Eof), start);
        }
        let c = self.chars[start];
        if c == ':' {
            (Ok(Token::Colon), start + 1)
        } else if c == ',' {
            (Ok(Token::Comma), start + 1)
        } else if '0' <= c && c <= '9' {
            let end = self.run_end(start, CharClass::Digit);
            proof {
                lemma_run_length_bound(r, CharClass::Digit);
                assert(r.take(end - start) =~= self.chars@.subrange(start as int, end as int));
                assert forall|j: int| start <= j < end implies is_digit_char(
                    #[trigger] self.chars@[j],
                ) by {
                    assert(self.chars@[j] == r[j - start]);
                }
            }
            match self.number_value(start, end) {
                Some(v) => (Ok(Token::Number(v)), end),
                None => {
                    let mut msg = String::from_str("Number out of range: ");
                    let digits = self.text(start, end);
                    msg.append(digits.as_str());
                    (Err(msg), end)
                },
            }
        } else {
            let end = self.run_end(start, CharClass::Word);
            assert(r.take(end - start) =~= self.chars@.subrange(start as int, end as int));
            (Ok(Token::Identifier(self.text(start, end))), end)
        }
    }

    /// Returns the next lexeme and moves past it; at the end of input it keeps returning `Eof`.
    pub fn next_token(&mut self) -> (r: Result<Token, String>)
        requires
            old(self).wf(),
        ensures
            final(self).wf(),
            lexeme_of(r) == scan(old(self).rest()).0,
            final(self).rest() == old(self).rest().skip(scan(old(self).rest()).1 as int),
    {
        let (t, p) = self.scan_at(self.position);
        assert(self.chars@.skip(self.position as int).skip(p - self.position) =~= self.chars@.skip(
            p as int,
        ));
        self.position = p;
        t
    }

    /// The lexeme that the next call of `next_token` returns.
    pub fn peek_next_token(&self) -> (r: Result<Token, String>)
        requires
            self.wf(),
        ensures
            lexeme_of(r) == scan(self.rest()).0,
    {
        self.scan_at(self.position).0
    }
}

} // verus!
