//! The lexical scanner: turns the input characters into a forward-only
//! sequence of tokens. Whitespace between tokens is skipped; strings are
//! copied verbatim between their quotes; numbers are scanned in three
//! lenient phases (whole part, fraction, exponent); keywords must be exactly
//! `null`, `true` or `false`.

use vstd::prelude::*;
use vstd::std_specs::iter::IteratorSpec;

use crate::number::{
    is_digit_char, seq_digits_val, view_exp, view_frac, Number, SpecNumber,
};

verus! {

/// A whitespace character that the scanner skips between tokens.
pub open spec fn is_ws_char(c: char) -> bool {
    c == ' ' || c == '\t' || c == '\n'
}

/// A sign character.
pub open spec fn is_sign_char(c: char) -> bool {
    c == '+' || c == '-'
}

/// A lowercase ASCII letter, the only characters a keyword may hold.
pub open spec fn is_lower_char(c: char) -> bool {
    97 <= c as u32 && c as u32 <= 122
}

/// An ASCII letter, the lookahead class that enters keyword scanning.
pub open spec fn is_alpha_char(c: char) -> bool {
    is_lower_char(c) || (65 <= c as u32 && c as u32 <= 90)
}

/// The first position at or after `p` whose character is not whitespace.
pub open spec fn ws_end(s: Seq<char>, p: int) -> int
    decreases s.len() - p,
        when 0 <= p <= s.len()
{
    if p < s.len() && is_ws_char(s[p]) {
        ws_end(s, p + 1)
    } else {
        p
    }
}

/// The first position at or after `p` whose character is not a digit.
pub open spec fn digits_end(s: Seq<char>, p: int) -> int
    decreases s.len() - p,
        when 0 <= p <= s.len()
{
    if p < s.len() && is_digit_char(s[p]) {
        digits_end(s, p + 1)
    } else {
        p
    }
}

/// The first position at or after `p` whose character is not a lowercase
/// letter.
pub open spec fn lower_end(s: Seq<char>, p: int) -> int
    decreases s.len() - p,
        when 0 <= p <= s.len()
{
    if p < s.len() && is_lower_char(s[p]) {
        lower_end(s, p + 1)
    } else {
        p
    }
}

/// The first position at or after `p` holding a double quote, or the length
/// of `s` if there is none.
pub open spec fn quote_end(s: Seq<char>, p: int) -> int
    decreases s.len() - p,
        when 0 <= p <= s.len()
{
    if p < s.len() && s[p] != '"' {
        quote_end(s, p + 1)
    } else {
        p
    }
}

pub proof fn lemma_ws_end(s: Seq<char>, p: int)
    requires
        0 <= p <= s.len(),
    ensures
        p <= ws_end(s, p) <= s.len(),
        ws_end(s, p) < s.len() ==> !is_ws_char(s[ws_end(s, p)]),
        forall|i: int| p <= i < ws_end(s, p) ==> is_ws_char(s[i]),
    decreases s.len() - p,
{
    if p < s.len() && is_ws_char(s[p]) {
        lemma_ws_end(s, p + 1);
    }
}

pub proof fn lemma_digits_end(s: Seq<char>, p: int)
    requires
        0 <= p <= s.len(),
    ensures
        p <= digits_end(s, p) <= s.len(),
        digits_end(s, p) < s.len() ==> !is_digit_char(s[digits_end(s, p)]),
        forall|i: int| p <= i < digits_end(s, p) ==> is_digit_char(s[i]),
    decreases s.len() - p,
{
    if p < s.len() && is_digit_char(s[p]) {
        lemma_digits_end(s, p + 1);
    }
}

/// A digit run is delimited by its first non-digit: the run that starts at
/// `p` and is known to reach exactly `q` ends at `q`.
pub proof fn lemma_digits_end_is(s: Seq<char>, p: int, q: int)
    requires
        0 <= p <= q <= s.len(),
        forall|i: int| p <= i < q ==> is_digit_char(s[i]),
        q < s.len() ==> !is_digit_char(s[q]),
    ensures
        digits_end(s, p) == q,
    decreases q - p,
{
    if p < q {
        lemma_digits_end_is(s, p + 1, q);
    }
}

pub proof fn lemma_lower_end(s: Seq<char>, p: int)
    requires
        0 <= p <= s.len(),
    ensures
        p <= lower_end(s, p) <= s.len(),
        lower_end(s, p) < s.len() ==> !is_lower_char(s[lower_end(s, p)]),
        forall|i: int| p <= i < lower_end(s, p) ==> is_lower_char(s[i]),
    decreases s.len() - p,
{
    if p < s.len() && is_lower_char(s[p]) {
        lemma_lower_end(s, p + 1);
    }
}

pub proof fn lemma_quote_end(s: Seq<char>, p: int)
    requires
        0 <= p <= s.len(),
    ensures
        p <= quote_end(s, p) <= s.len(),
        quote_end(s, p) < s.len() ==> s[quote_end(s, p)] == '"',
        forall|i: int| p <= i < quote_end(s, p) ==> s[i] != '"',
    decreases s.len() - p,
{
    if p < s.len() && s[p] != '"' {
        lemma_quote_end(s, p + 1);
    }
}

/// A failure of the scanner; every one is fatal for the parse.
#[derive(Debug, Clone, Copy, PartialEq, Eq, Structural)]
pub enum LexError {
    /// A character that no token can start with.
    UnrecognizedChar,
    /// The input ended before a string's closing quote.
    UnterminatedString,
    /// A run of letters that is not `null`, `true` or `false`.
    InvalidKeyword,
    /// A sign inside a numeric phase after its first character.
    MisplacedSign,
}

/// One lexical unit.
#[derive(Debug, Clone, PartialEq)]
pub enum JToken {
    LeftBrace,
    RightBrace,
    LeftBracket,
    RightBracket,
    Collon,
    Comma,
    Null,
    Bool(bool),
    Number(Number),
    String(String),
}

/// The mathematical model of a token.
pub enum SpecToken {
    LeftBrace,
    RightBrace,
    LeftBracket,
    RightBracket,
    Colon,
    Comma,
    Null,
    Bool(bool),
    Number(SpecNumber),
    Str(Seq<char>),
}

impl View for JToken {
    type V = SpecToken;

    open spec fn view(&self) -> SpecToken {
        match self {
            JToken::LeftBrace => SpecToken::LeftBrace,
            JToken::RightBrace => SpecToken::RightBrace,
            JToken::LeftBracket => SpecToken::LeftBracket,
            JToken::RightBracket => SpecToken::RightBracket,
            JToken::Collon => SpecToken::Colon,
            JToken::Comma => SpecToken::Comma,
            JToken::Null => SpecToken::Null,
            JToken::Bool(b) => SpecToken::Bool(*b),
            JToken::Number(n) => SpecToken::Number(n@),
            JToken::String(t) => SpecToken::Str(t@),
        }
    }
}

/// The outcome of the integer phase of number scanning.
pub enum IntScan {
    /// The parsed whole part (0 when no digits could be parsed or the value
    /// overflows an `i32`) and the position after the consumed characters.
    Value { value: int, end: int },
    /// A sign was met after the phase had already consumed a character.
    SignErr,
}

/// The integer phase: an optional leading sign, then digits; a sign met
/// later is fatal. An absent or overflowing value falls back to 0.
pub open spec fn scan_int(s: Seq<char>, p: int) -> IntScan {
    let body = if p < s.len() && is_sign_char(s[p]) {
        p + 1
    } else {
        p
    };
    let q = digits_end(s, body);
    if q > p && q < s.len() && is_sign_char(s[q]) {
        IntScan::SignErr
    } else {
        let neg = body > p && s[p] == '-';
        let dv = seq_digits_val(s.subrange(body, q));
        let v = if q == body {
            0
        } else if neg {
            if dv <= 0x8000_0000 {
                -dv
            } else {
                0
            }
        } else {
            if dv < 0x8000_0000 {
                dv
            } else {
                0
            }
        };
        IntScan::Value { value: v, end: q }
    }
}

/// The fraction phase: a `'.'` followed by digits; absent when the next
/// character is no `'.'` or when no digit follows it.
pub open spec fn scan_frac(s: Seq<char>, p: int) -> (Option<Seq<char>>, int) {
    if p < s.len() && s[p] == '.' {
        let q = digits_end(s, p + 1);
        if q == p + 1 {
            (None, q)
        } else {
            (Some(s.subrange(p + 1, q)), q)
        }
    } else {
        (None, p)
    }
}

/// The outcome of the exponent phase of number scanning.
pub enum ExpScan {
    /// The parsed exponent (absent when no `e`/`E` was met, no digits
    /// followed, or the value overflows an `i32`) and the position after the
    /// consumed characters.
    Value { value: Option<int>, end: int },
    /// A sign was met after the phase had already consumed a character
    /// beyond the `e`/`E`.
    SignErr,
}

/// The exponent phase: an `e`/`E`, an optional sign, then digits; a sign met
/// later is fatal. An absent or overflowing value is treated as absent.
pub open spec fn scan_exp(s: Seq<char>, p: int) -> ExpScan {
    if p < s.len() && (s[p] == 'e' || s[p] == 'E') {
        let r = p + 1;
        let body = if r < s.len() && is_sign_char(s[r]) {
            r + 1
        } else {
            r
        };
        let q = digits_end(s, body);
        if q > r && q < s.len() && is_sign_char(s[q]) {
            ExpScan::SignErr
        } else {
            let neg = body > r && s[r] == '-';
            let dv = seq_digits_val(s.subrange(body, q));
            let v = if q == body {
                None
            } else if neg {
                if dv <= 0x8000_0000 {
                    Some(-dv)
                } else {
                    None
                }
            } else {
                if dv < 0x8000_0000 {
                    Some(dv)
                } else {
                    None
                }
            };
            ExpScan::Value { value: v, end: q }
        }
    } else {
        ExpScan::Value { value: None, end: p }
    }
}

/// The outcome of scanning a whole number.
pub enum NumScan {
    Value(SpecNumber, int),
    Fail(LexError),
}

/// Number scanning: the three phases in order; the scan always yields some
/// number unless a misplaced sign is met.
pub open spec fn scan_number(s: Seq<char>, p: int) -> NumScan {
    match scan_int(s, p) {
        IntScan::SignErr => NumScan::Fail(LexError::MisplacedSign),
        IntScan::Value { value: iv, end: q1 } => {
            let (f, q2) = scan_frac(s, q1);
            match scan_exp(s, q2) {
                ExpScan::SignErr => NumScan::Fail(LexError::MisplacedSign),
                ExpScan::Value { value: ev, end: q3 } => NumScan::Value(
                    SpecNumber { integer: iv, frac: f, exponent: ev },
                    q3,
                ),
            }
        },
    }
}

/// String scanning, from the opening quote at `p`: the characters strictly
/// between the quote and the next quote, copied verbatim; `None` when the
/// input ends first.
pub open spec fn scan_string(s: Seq<char>, p: int) -> Option<(Seq<char>, int)> {
    let q = quote_end(s, p + 1);
    if q < s.len() {
        Some((s.subrange(p + 1, q), q + 1))
    } else {
        None
    }
}

/// Keyword scanning, from `p`: the run of lowercase letters must be exactly
/// `null`, `true` or `false`; anything else is invalid.
pub open spec fn scan_keyword(s: Seq<char>, p: int) -> Option<(SpecToken, int)> {
    let q = lower_end(s, p);
    let w = s.subrange(p, q);
    if w == "null"@ {
        Some((SpecToken::Null, q))
    } else if w == "true"@ {
        Some((SpecToken::Bool(true), q))
    } else if w == "false"@ {
        Some((SpecToken::Bool(false), q))
    } else {
        None
    }
}

/// What the scanner does at a position: reach the end of input, produce a
/// token together with the position after it, or fail.
pub enum TokenStep {
    End,
    Tok(SpecToken, int),
    Fail(LexError),
}

/// The next token at or after position `p`: whitespace is skipped, then the
/// first character decides the mode.
pub open spec fn token_at(s: Seq<char>, p: int) -> TokenStep {
    let w = ws_end(s, p);
    if w == s.len() {
        TokenStep::End
    } else {
        let c = s[w];
        if c == '{' {
            TokenStep::Tok(SpecToken::LeftBrace, w + 1)
        } else if c == '}' {
            TokenStep::Tok(SpecToken::RightBrace, w + 1)
        } else if c == '[' {
            TokenStep::Tok(SpecToken::LeftBracket, w + 1)
        } else if c == ']' {
            TokenStep::Tok(SpecToken::RightBracket, w + 1)
        } else if c == ':' {
            TokenStep::Tok(SpecToken::Colon, w + 1)
        } else if c == ',' {
            TokenStep::Tok(SpecToken::Comma, w + 1)
        } else if c == '"' {
            match scan_string(s, w) {
                Some((t, q)) => TokenStep::Tok(SpecToken::Str(t), q),
                None => TokenStep::Fail(LexError::UnterminatedString),
            }
        } else if is_digit_char(c) || is_sign_char(c) || c == '.' {
            match scan_number(s, w) {
                NumScan::Value(n, q) => TokenStep::Tok(SpecToken::Number(n), q),
                NumScan::Fail(e) => TokenStep::Fail(e),
            }
        } else if is_alpha_char(c) {
            match scan_keyword(s, w) {
                Some((t, q)) => TokenStep::Tok(t, q),
                None => TokenStep::Fail(LexError::InvalidKeyword),
            }
        } else {
            TokenStep::Fail(LexError::UnrecognizedChar)
        }
    }
}

/// A produced token lies strictly ahead of the position it was scanned from
/// and never beyond the end of the input.
pub proof fn lemma_token_bounds(s: Seq<char>, p: int)
    requires
        0 <= p <= s.len(),
    ensures
        match token_at(s, p) {
            TokenStep::Tok(_, q) => p < q <= s.len(),
            _ => true,
        },
{
    lemma_ws_end(s, p);
    let w = ws_end(s, p);
    if w < s.len() {
        let c = s[w];
        if c == '"' {
            lemma_quote_end(s, w + 1);
        } else if is_digit_char(c) || is_sign_char(c) || c == '.' {
            lemma_scan_number_bounds(s, w);
        } else if is_alpha_char(c) {
            lemma_lower_end(s, w);
            reveal_strlit("null");
            reveal_strlit("true");
            reveal_strlit("false");
            let q = lower_end(s, w);
            assert(s.subrange(w, q).len() == q - w);
        }
    }
}

/// A scanned number ends strictly ahead of where it started (the start
/// character being a digit, a sign or a dot) and within the input.
pub proof fn lemma_scan_number_bounds(s: Seq<char>, p: int)
    requires
        0 <= p < s.len(),
        is_digit_char(s[p]) || is_sign_char(s[p]) || s[p] == '.',
    ensures
        match scan_number(s, p) {
            NumScan::Value(_, q) => p < q <= s.len(),
            NumScan::Fail(_) => true,
        },
{
    let body = if is_sign_char(s[p]) {
        p + 1
    } else {
        p
    };
    lemma_digits_end(s, body);
    match scan_int(s, p) {
        IntScan::SignErr => {},
        IntScan::Value { value: _, end: q1 } => {
            assert(p <= q1 <= s.len());
            assert(is_digit_char(s[p]) ==> q1 > p);
            let (f, q2) = scan_frac(s, q1);
            if q1 < s.len() && s[q1] == '.' {
                lemma_digits_end(s, q1 + 1);
            }
            assert(q1 <= q2 <= s.len());
            assert(s[p] == '.' && body == p && q1 == p ==> q2 > p);
            match scan_exp(s, q2) {
                ExpScan::SignErr => {},
                ExpScan::Value { value: _, end: q3 } => {
                    if q2 < s.len() && (s[q2] == 'e' || s[q2] == 'E') {
                        let r = q2 + 1;
                        let body2 = if r < s.len() && is_sign_char(s[r]) {
                            r + 1
                        } else {
                            r
                        };
                        lemma_digits_end(s, body2);
                    }
                    assert(q2 <= q3 <= s.len());
                },
            }
        },
    }
}


/// The scanner state: the input characters and a forward-only cursor.
pub struct Tokenizer {
    input: Vec<char>,
    pos: usize,
}

impl Tokenizer {
    /// The characters being scanned.
    pub closed spec fn spec_input(&self) -> Seq<char> {
        self.input@
    }

    /// The cursor position.
    pub closed spec fn spec_pos(&self) -> int {
        self.pos as int
    }

    /// The cursor never lies beyond the end of the input.
    pub open spec fn wf(&self) -> bool {
        0 <= self.spec_pos() <= self.spec_input().len()
    }

    /// Builds a scanner over the characters of the input text.
    #[verifier::loop_isolation(false)]
    pub fn new(input: String) -> (t: Self)
        ensures
            t.wf(),
            t.spec_input() == input@,
            t.spec_pos() == 0,
    {
        let mut cs: Vec<char> = Vec::new();
        let mut it = input.as_str().chars();
        loop
            invariant
                it.obeys_prophetic_iter_laws(),
                cs@ + it.remaining() == input@,
            decreases input@.len() - cs@.len(),
        {
            let c = it.next();
            match c {
                Some(c) => {
                    cs.push(c);
                    proof {
                        assert(cs@ + it.remaining() =~= input@);
                    }
                },
                None => {
                    break;
                },
            }
        }
        assert(cs@ =~= input@);
        Tokenizer { input: cs, pos: 0 }
    }

    /// Scans a string token from the opening quote at the cursor: the
    /// characters up to the next quote are copied verbatim; an unterminated
    /// string is fatal.
    #[verifier::loop_isolation(false)]
    pub fn consume_string(&mut self) -> (r: Result<JToken, LexError>)
        requires
            old(self).wf(),
            old(self).spec_pos() < old(self).spec_input().len(),
            old(self).spec_input()[old(self).spec_pos()] == '"',
        ensures
            final(self).wf(),
            final(self).spec_input() == old(self).spec_input(),
            match scan_string(old(self).spec_input(), old(self).spec_pos()) {
                Some((t, q)) => (r matches Ok(tok) && tok@ == SpecToken::Str(t)) && final(self).spec_pos() == q,
                None => r == Err::<JToken, LexError>(LexError::UnterminatedString),
            },
    {
        let ghost s = self.input@;
        let ghost p0 = self.pos as int;
        let n = self.input.len();
        assert(self.pos < n);
        self.pos = self.pos + 1;
        let mut buf = String::new();
        loop
            invariant
                self.input@ == s,
                0 <= p0 < s.len(),
                p0 + 1 <= self.pos as int <= s.len(),
                quote_end(s, p0 + 1) == quote_end(s, self.pos as int),
                buf@ == s.subrange(p0 + 1, self.pos as int),
            decreases s.len() - self.pos as int,
        {
            if self.pos == self.input.len() {
                proof {
                    lemma_quote_end(s, self.pos as int);
                }
                return Err(LexError::UnterminatedString);
            }
            let c = self.input[self.pos];
            self.pos = self.pos + 1;
            if c == '"' {
                return Ok(JToken::String(buf));
            }
            buf.push(c);
            proof {
                assert(buf@ =~= s.subrange(p0 + 1, self.pos as int));
            }
        }
    }

    /// Consumes the digit run at the cursor and accumulates its value; the
    /// flag reports a value too large for a number component.
    #[verifier::loop_isolation(false)]
    fn consume_digits(&mut self) -> (r: (u64, bool))
        requires
            old(self).wf(),
        ensures
            final(self).wf(),
            final(self).spec_input() == old(self).spec_input(),
            old(self).spec_pos() <= final(self).spec_pos(),
            final(self).spec_pos() == digits_end(old(self).spec_input(), old(self).spec_pos()),
            !r.1 ==> r.0 == seq_digits_val(
                old(self).spec_input().subrange(old(self).spec_pos(), final(self).spec_pos()),
            ) && r.0 <= 0x8000_0000,
            r.1 ==> seq_digits_val(
                old(self).spec_input().subrange(old(self).spec_pos(), final(self).spec_pos()),
            ) > 0x8000_0000,
    {
        let ghost s = self.input@;
        let ghost p0 = self.pos as int;
        let mut acc: u64 = 0;
        let mut big = false;
        loop
            invariant
                self.input@ == s,
                0 <= p0 <= self.pos as int <= s.len(),
                digits_end(s, p0) == digits_end(s, self.pos as int),
                !big ==> acc == seq_digits_val(s.subrange(p0, self.pos as int)) && acc
                    <= 0x8000_0000,
                big ==> seq_digits_val(s.subrange(p0, self.pos as int)) > 0x8000_0000,
            decreases s.len() - self.pos as int,
        {
            if self.pos == self.input.len() {
                break;
            }
            let c = self.input[self.pos];
            let cu = c as u32;
            if 48 <= cu && cu <= 57 {
                let d = (cu - 48) as u64;
                self.pos = self.pos + 1;
                proof {
                    assert(s.subrange(p0, self.pos as int).drop_last() =~= s.subrange(
                        p0,
                        self.pos as int - 1,
                    ));
                }
                if !big {
                    let na = acc * 10 + d;
                    if na > 0x8000_0000 {
                        big = true;
                    } else {
                        acc = na;
                    }
                }
            } else {
                break;
            }
        }
        (acc, big)
    }

    /// Scans the integer phase and advances the cursor past it.
    fn consume_int(&mut self) -> (r: Result<i32, LexError>)
        requires
            old(self).wf(),
        ensures
            final(self).wf(),
            final(self).spec_input() == old(self).spec_input(),
            match scan_int(old(self).spec_input(), old(self).spec_pos()) {
                IntScan::Value { value, end } => (r matches Ok(v) && v as int == value) && final(self).spec_pos() == end,
                IntScan::SignErr => r == Err::<i32, LexError>(LexError::MisplacedSign),
            },
    {
        let ghost s = self.input@;
        let ghost p0 = self.pos as int;
        let mut neg = false;
        let mut signed = false;
        if self.pos < self.input.len() {
            let c = self.input[self.pos];
            if c == '-' || c == '+' {
                neg = c == '-';
                signed = true;
                self.pos = self.pos + 1;
            }
        }
        let start = self.pos;
        let ghost body = self.pos as int;
        let (acc, big) = self.consume_digits();
        if self.pos < self.input.len() {
            let c = self.input[self.pos];
            if (c == '-' || c == '+') && (signed || self.pos > start) {
                return Err(LexError::MisplacedSign);
            }
        }
        let no_digits = self.pos == start;
        let v: i32 = if no_digits || big {
            0
        } else if neg {
            (-(acc as i64)) as i32
        } else {
            if acc < 0x8000_0000 {
                acc as i32
            } else {
                0
            }
        };
        Ok(v)
    }

    /// Scans the fraction phase: the digits after a dot, when both are
    /// there.
    #[verifier::loop_isolation(false)]
    fn consume_frac(&mut self) -> (r: Option<Vec<char>>)
        requires
            old(self).wf(),
        ensures
            final(self).wf(),
            final(self).spec_input() == old(self).spec_input(),
            ({
                let (f, q) = scan_frac(old(self).spec_input(), old(self).spec_pos());
                view_frac(r) == f && final(self).spec_pos() == q
            }),
    {
        let ghost s = self.input@;
        let ghost p0 = self.pos as int;
        if self.pos < self.input.len() && self.input[self.pos] == '.' {
            self.pos = self.pos + 1;
            let mut buf: Vec<char> = Vec::new();
            loop
                invariant
                    self.input@ == s,
                    p0 + 1 <= self.pos as int <= s.len(),
                    digits_end(s, p0 + 1) == digits_end(s, self.pos as int),
                    buf@ == s.subrange(p0 + 1, self.pos as int),
                decreases s.len() - self.pos as int,
            {
                if self.pos == self.input.len() {
                    break;
                }
                let c = self.input[self.pos];
                let cu = c as u32;
                if 48 <= cu && cu <= 57 {
                    buf.push(c);
                    self.pos = self.pos + 1;
                    proof {
                        assert(buf@ =~= s.subrange(p0 + 1, self.pos as int));
                    }
                } else {
                    break;
                }
            }
            if buf.len() == 0 {
                None
            } else {
                Some(buf)
            }
        } else {
            None
        }
    }

    /// Scans the exponent phase: an `e`/`E`, an optional sign, then digits.
    fn consume_exponent(&mut self) -> (r: Result<Option<i32>, LexError>)
        requires
            old(self).wf(),
        ensures
            final(self).wf(),
            final(self).spec_input() == old(self).spec_input(),
            match scan_exp(old(self).spec_input(), old(self).spec_pos()) {
                ExpScan::Value { value, end } => (r matches Ok(v) && view_exp(v) == value) && final(self).spec_pos() == end,
                ExpScan::SignErr => r == Err::<Option<i32>, LexError>(LexError::MisplacedSign),
            },
    {
        let ghost s = self.input@;
        let ghost p0 = self.pos as int;
        if self.pos < self.input.len() && (self.input[self.pos] == 'e' || self.input[self.pos]
            == 'E') {
            self.pos = self.pos + 1;
            let after_e = self.pos;
            let mut neg = false;
            let mut signed = false;
            if self.pos < self.input.len() {
                let c = self.input[self.pos];
                if c == '-' || c == '+' {
                    neg = c == '-';
                    signed = true;
                    self.pos = self.pos + 1;
                }
            }
            let start = self.pos;
            let (acc, big) = self.consume_digits();
            if self.pos < self.input.len() {
                let c = self.input[self.pos];
                if (c == '-' || c == '+') && (signed || self.pos > start) {
                    return Err(LexError::MisplacedSign);
                }
            }
            let no_digits = self.pos == start;
            if no_digits || big {
                Ok(None)
            } else if neg {
                Ok(Some((-(acc as i64)) as i32))
            } else {
                if acc < 0x8000_0000 {
                    Ok(Some(acc as i32))
                } else {
                    Ok(None)
                }
            }
        } else {
            Ok(None)
        }
    }

    /// Scans a whole number token: integer, fraction and exponent phases in
    /// order.
    pub fn consume_number(&mut self) -> (r: Result<JToken, LexError>)
        requires
            old(self).wf(),
        ensures
            final(self).wf(),
            final(self).spec_input() == old(self).spec_input(),
            match scan_number(old(self).spec_input(), old(self).spec_pos()) {
                NumScan::Value(n, q) => (r matches Ok(tok) && tok@ == SpecToken::Number(n)) && final(self).spec_pos() == q,
                NumScan::Fail(e) => r == Err::<JToken, LexError>(e),
            },
    {
        let integer = match self.consume_int() {
            Ok(v) => v,
            Err(e) => {
                return Err(e);
            },
        };
        let frac = self.consume_frac();
        let exponent = match self.consume_exponent() {
            Ok(v) => v,
            Err(e) => {
                return Err(e);
            },
        };
        Ok(JToken::Number(Number::new(integer, frac, exponent)))
    }

    /// Scans a keyword token: the run of lowercase letters at the cursor
    /// must be exactly `null`, `true` or `false`.
    #[verifier::loop_isolation(false)]
    pub fn consume_keyword(&mut self) -> (r: Result<JToken, LexError>)
        requires
            old(self).wf(),
        ensures
            final(self).wf(),
            final(self).spec_input() == old(self).spec_input(),
            match scan_keyword(old(self).spec_input(), old(self).spec_pos()) {
                Some((t, q)) => (r matches Ok(tok) && tok@ == t) && final(self).spec_pos() == q,
                None => r == Err::<JToken, LexError>(LexError::InvalidKeyword),
            },
    {
        let ghost s = self.input@;
        let ghost p0 = self.pos as int;
        let mut buf: Vec<char> = Vec::new();
        loop
            invariant
                self.input@ == s,
                0 <= p0 <= self.pos as int <= s.len(),
                lower_end(s, p0) == lower_end(s, self.pos as int),
                buf@ == s.subrange(p0, self.pos as int),
            decreases s.len() - self.pos as int,
        {
            if self.pos == self.input.len() {
                break;
            }
            let c = self.input[self.pos];
            let cu = c as u32;
            if 97 <= cu && cu <= 122 {
                buf.push(c);
                self.pos = self.pos + 1;
                proof {
                    assert(buf@ =~= s.subrange(p0, self.pos as int));
                }
            } else {
                break;
            }
        }
        proof {
            reveal_strlit("null");
            reveal_strlit("true");
            reveal_strlit("false");
        }
        if buf.len() == 4 && buf[0] == 'n' && buf[1] == 'u' && buf[2] == 'l' && buf[3] == 'l' {
            proof {
                assert(buf@ =~= "null"@);
            }
            Ok(JToken::Null)
        } else if buf.len() == 4 && buf[0] == 't' && buf[1] == 'r' && buf[2] == 'u' && buf[3]
            == 'e' {
            proof {
                assert(buf@ =~= "true"@);
            }
            Ok(JToken::Bool(true))
        } else if buf.len() == 5 && buf[0] == 'f' && buf[1] == 'a' && buf[2] == 'l' && buf[3] == 's'
            && buf[4] == 'e' {
            proof {
                assert(buf@ =~= "false"@);
            }
            Ok(JToken::Bool(false))
        } else {
            Err(LexError::InvalidKeyword)
        }
    }

    /// Produces the next token, or `Ok(None)` at the end of the input, or
    /// the lexical error the input holds at the cursor.
    #[verifier::loop_isolation(false)]
    pub fn next(&mut self) -> (r: Result<Option<JToken>, LexError>)
        requires
            old(self).wf(),
        ensures
            final(self).wf(),
            final(self).spec_input() == old(self).spec_input(),
            match token_at(old(self).spec_input(), old(self).spec_pos()) {
                TokenStep::End => r == Ok::<Option<JToken>, LexError>(None) && final(self).spec_pos() == old(self).spec_input().len(),
                TokenStep::Tok(t, q) => (r matches Ok(rr) && rr matches Some(tok) && tok@ == t)
                    && final(self).spec_pos() == q,
                TokenStep::Fail(e) => r == Err::<Option<JToken>, LexError>(e),
            },
    {
        let ghost s = self.input@;
        let ghost p0 = self.pos as int;
        loop
            invariant
                self.input@ == s,
                0 <= p0 <= self.pos as int <= s.len(),
                ws_end(s, p0) == ws_end(s, self.pos as int),
            decreases s.len() - self.pos as int,
        {
            if self.pos == self.input.len() {
                return Ok(None);
            }
            let c = self.input[self.pos];
            if c == ' ' || c == '\t' || c == '\n' {
                self.pos = self.pos + 1;
            } else if c == '{' {
                self.pos = self.pos + 1;
                return Ok(Some(JToken::LeftBrace));
            } else if c == '}' {
                self.pos = self.pos + 1;
                return Ok(Some(JToken::RightBrace));
            } else if c == '[' {
                self.pos = self.pos + 1;
                return Ok(Some(JToken::LeftBracket));
            } else if c == ']' {
                self.pos = self.pos + 1;
                return Ok(Some(JToken::RightBracket));
            } else if c == ':' {
                self.pos = self.pos + 1;
                return Ok(Some(JToken::Collon));
            } else if c == ',' {
                self.pos = self.pos + 1;
                return Ok(Some(JToken::Comma));
            } else if c == '"' {
                return match self.consume_string() {
                    Ok(t) => Ok(Some(t)),
                    Err(e) => Err(e),
                };
            } else {
                let cu = c as u32;
                if (48 <= cu && cu <= 57) || c == '-' || c == '+' || c == '.' {
                    return match self.consume_number() {
                        Ok(t) => Ok(Some(t)),
                        Err(e) => Err(e),
                    };
                } else if (97 <= cu && cu <= 122) || (65 <= cu && cu <= 90) {
                    return match self.consume_keyword() {
                        Ok(t) => Ok(Some(t)),
                        Err(e) => Err(e),
                    };
                } else {
                    return Err(LexError::UnrecognizedChar);
                }
            }
        }
    }

    /// Produces what `next` would, leaving the cursor where it stands.
    pub fn peek(&mut self) -> (r: Result<Option<JToken>, LexError>)
        requires
            old(self).wf(),
        ensures
            final(self).wf(),
            final(self).spec_input() == old(self).spec_input(),
            final(self).spec_pos() == old(self).spec_pos(),
            match token_at(old(self).spec_input(), old(self).spec_pos()) {
                TokenStep::End => r == Ok::<Option<JToken>, LexError>(None),
                TokenStep::Tok(t, _) => r matches Ok(rr) && rr matches Some(tok) && tok@ == t,
                TokenStep::Fail(e) => r == Err::<Option<JToken>, LexError>(e),
            },
    {
        let saved = self.pos;
        let r = self.next();
        self.pos = saved;
        r
    }
}

} // verus!
