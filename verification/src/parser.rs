//! The tree builder: a recursive-descent parser over the scanner's tokens,
//! one token of lookahead, building the value tree bottom-up. Its behaviour
//! is stated by a spec-level interpreter over the input characters; each
//! executable function returns exactly what the interpreter says.

use vstd::prelude::*;

use crate::tokenizer::{token_at, JToken, LexError, SpecToken, TokenStep, Tokenizer};
use crate::value::{
    abstracts, entries_abstract, obj_entries, upsert_spec, wf_entries, wf_value, JValue,
    ObjectMap, SpecValue,
};

verus! {

/// A structural failure: a token out of place.
#[derive(Debug, Clone, Copy, PartialEq, Eq, Structural)]
pub enum SyntaxError {
    /// The input ended where a token was owed.
    UnexpectedEnd,
    /// A document whose first token is not `{` or `[`.
    BadDocumentStart,
    /// An object member that does not start with a string key.
    ExpectedKey,
    /// A key not followed by `:`.
    ExpectedColon,
    /// A token that no value can start with, where a value is owed.
    ExpectedValue,
    /// A value not followed by `,` or the container's closer.
    ExpectedSeparator,
}

/// Any failure of a parse: lexical or structural. Every one is fatal and no
/// partial tree is returned.
#[derive(Debug, Clone, Copy, PartialEq, Eq, Structural)]
pub enum JsonError {
    Lex(LexError),
    Syntax(SyntaxError),
}

/// What a step of the interpreter yields: a value and the position after it,
/// or a failure.
pub enum PStep {
    Val(SpecValue, int),
    Fail(JsonError),
}

/// The interpreter at a value position: scalars are consumed directly; `{`
/// and `[` recurse into the container rules.
pub open spec fn spec_parse_value(s: Seq<char>, p: int) -> PStep
    decreases s.len() - p, 1int,
        when 0 <= p <= s.len()
{
    match token_at(s, p) {
        TokenStep::End => PStep::Fail(JsonError::Syntax(SyntaxError::UnexpectedEnd)),
        TokenStep::Fail(e) => PStep::Fail(JsonError::Lex(e)),
        TokenStep::Tok(t, q) => match t {
            SpecToken::Null => PStep::Val(SpecValue::Null, q),
            SpecToken::Bool(b) => PStep::Val(SpecValue::Bool(b), q),
            SpecToken::Str(st) => PStep::Val(SpecValue::Str(st), q),
            SpecToken::Number(n) => PStep::Val(SpecValue::Num(n), q),
            SpecToken::LeftBrace => spec_parse_object(s, p),
            SpecToken::LeftBracket => spec_parse_array(s, p),
            _ => PStep::Fail(JsonError::Syntax(SyntaxError::ExpectedValue)),
        },
    }
}

/// The interpreter at an object: consumes the `{` and reads members.
pub open spec fn spec_parse_object(s: Seq<char>, p: int) -> PStep
    decreases s.len() - p, 0int,
        when 0 <= p <= s.len()
{
    match token_at(s, p) {
        TokenStep::Tok(SpecToken::LeftBrace, q) => if p < q <= s.len() {
            spec_parse_members(s, q, Seq::empty())
        } else {
            PStep::Fail(JsonError::Syntax(SyntaxError::UnexpectedEnd))
        },
        _ => PStep::Fail(JsonError::Syntax(SyntaxError::BadDocumentStart)),
    }
}

/// The interpreter inside an object, `acc` holding the members read so far:
/// a `}` closes the object; otherwise a string key, a `:`, a value, and a
/// separator must follow, the pair written over `upsert_spec`.
pub open spec fn spec_parse_members(
    s: Seq<char>,
    p: int,
    acc: Seq<(Seq<char>, SpecValue)>,
) -> PStep
    decreases s.len() - p, 2int,
        when 0 <= p <= s.len()
{
    match token_at(s, p) {
        TokenStep::End => PStep::Fail(JsonError::Syntax(SyntaxError::UnexpectedEnd)),
        TokenStep::Fail(e) => PStep::Fail(JsonError::Lex(e)),
        TokenStep::Tok(t, q) => match t {
            SpecToken::RightBrace => PStep::Val(SpecValue::Object(acc), q),
            SpecToken::Str(k) => match token_at(s, q) {
                TokenStep::End => PStep::Fail(JsonError::Syntax(SyntaxError::UnexpectedEnd)),
                TokenStep::Fail(e) => PStep::Fail(JsonError::Lex(e)),
                TokenStep::Tok(t2, q2) => if !(t2 is Colon) {
                    PStep::Fail(JsonError::Syntax(SyntaxError::ExpectedColon))
                } else if p < q2 <= s.len() {
                    match spec_parse_value(s, q2) {
                        PStep::Fail(e) => PStep::Fail(e),
                        PStep::Val(v, q3) => {
                            let acc2 = upsert_spec(acc, k, v);
                            match token_at(s, q3) {
                                TokenStep::End => PStep::Fail(
                                    JsonError::Syntax(SyntaxError::UnexpectedEnd),
                                ),
                                TokenStep::Fail(e) => PStep::Fail(JsonError::Lex(e)),
                                TokenStep::Tok(t3, q4) => match t3 {
                                    SpecToken::Comma => if p < q4 <= s.len() {
                                        spec_parse_members(s, q4, acc2)
                                    } else {
                                        PStep::Fail(JsonError::Syntax(SyntaxError::UnexpectedEnd))
                                    },
                                    SpecToken::RightBrace => if p < q3 <= s.len() {
                                        spec_parse_members(s, q3, acc2)
                                    } else {
                                        PStep::Fail(JsonError::Syntax(SyntaxError::UnexpectedEnd))
                                    },
                                    _ => PStep::Fail(
                                        JsonError::Syntax(SyntaxError::ExpectedSeparator),
                                    ),
                                },
                            }
                        },
                    }
                } else {
                    PStep::Fail(JsonError::Syntax(SyntaxError::UnexpectedEnd))
                },
            },
            _ => PStep::Fail(JsonError::Syntax(SyntaxError::ExpectedKey)),
        },
    }
}

/// The interpreter at an array: consumes the `[`; an immediate `]` yields
/// the empty array, anything else enters the element rule.
pub open spec fn spec_parse_array(s: Seq<char>, p: int) -> PStep
    decreases s.len() - p, 0int,
        when 0 <= p <= s.len()
{
    match token_at(s, p) {
        TokenStep::Tok(SpecToken::LeftBracket, q) => if p < q <= s.len() {
            match token_at(s, q) {
                TokenStep::Fail(e) => PStep::Fail(JsonError::Lex(e)),
                TokenStep::Tok(SpecToken::RightBracket, q2) => PStep::Val(
                    SpecValue::Array(Seq::empty()),
                    q2,
                ),
                _ => spec_parse_elements(s, q, Seq::empty()),
            }
        } else {
            PStep::Fail(JsonError::Syntax(SyntaxError::UnexpectedEnd))
        },
        _ => PStep::Fail(JsonError::Syntax(SyntaxError::BadDocumentStart)),
    }
}

/// The interpreter inside an array where a value is owed, `acc` holding the
/// elements read so far: after the value, a `,` asks for the next element
/// and a `]` closes the array; a `]` in place of a value is fatal.
pub open spec fn spec_parse_elements(s: Seq<char>, p: int, acc: Seq<SpecValue>) -> PStep
    decreases s.len() - p, 2int,
        when 0 <= p <= s.len()
{
    match spec_parse_value(s, p) {
        PStep::Fail(e) => PStep::Fail(e),
        PStep::Val(v, q) => match token_at(s, q) {
            TokenStep::End => PStep::Fail(JsonError::Syntax(SyntaxError::UnexpectedEnd)),
            TokenStep::Fail(e) => PStep::Fail(JsonError::Lex(e)),
            TokenStep::Tok(t, q2) => match t {
                SpecToken::Comma => if p < q2 <= s.len() {
                    spec_parse_elements(s, q2, acc.push(v))
                } else {
                    PStep::Fail(JsonError::Syntax(SyntaxError::UnexpectedEnd))
                },
                SpecToken::RightBracket => PStep::Val(SpecValue::Array(acc.push(v)), q2),
                _ => PStep::Fail(JsonError::Syntax(SyntaxError::ExpectedSeparator)),
            },
        },
    }
}

/// The interpreter at the top of a document: the first token must open an
/// object or an array; a bare scalar document is rejected.
pub open spec fn spec_parse_doc(s: Seq<char>, p: int) -> PStep {
    match token_at(s, p) {
        TokenStep::End => PStep::Fail(JsonError::Syntax(SyntaxError::UnexpectedEnd)),
        TokenStep::Fail(e) => PStep::Fail(JsonError::Lex(e)),
        TokenStep::Tok(SpecToken::LeftBrace, _) => spec_parse_object(s, p),
        TokenStep::Tok(SpecToken::LeftBracket, _) => spec_parse_array(s, p),
        TokenStep::Tok(_, _) => PStep::Fail(JsonError::Syntax(SyntaxError::BadDocumentStart)),
    }
}


/// Every tree the interpreter assigns to a value position is well formed:
/// each object in it enumerates pairwise distinct keys.
proof fn lemma_parse_value_wf(s: Seq<char>, p: int)
    requires
        0 <= p <= s.len(),
    ensures
        match spec_parse_value(s, p) {
            PStep::Val(sv, _) => wf_value(sv),
            PStep::Fail(_) => true,
        },
    decreases s.len() - p, 1int,
{
    match token_at(s, p) {
        TokenStep::Tok(t, q) => match t {
            SpecToken::LeftBrace => lemma_parse_object_wf(s, p),
            SpecToken::LeftBracket => lemma_parse_array_wf(s, p),
            _ => {},
        },
        _ => {},
    }
}

proof fn lemma_parse_object_wf(s: Seq<char>, p: int)
    requires
        0 <= p <= s.len(),
    ensures
        match spec_parse_object(s, p) {
            PStep::Val(sv, _) => wf_value(sv),
            PStep::Fail(_) => true,
        },
    decreases s.len() - p, 0int,
{
    match token_at(s, p) {
        TokenStep::Tok(SpecToken::LeftBrace, q) => {
            if p < q <= s.len() {
                assert(wf_entries(Seq::<(Seq<char>, SpecValue)>::empty()));
                lemma_parse_members_wf(s, q, Seq::empty());
            }
        },
        _ => {},
    }
}

proof fn lemma_parse_members_wf(s: Seq<char>, p: int, acc: Seq<(Seq<char>, SpecValue)>)
    requires
        0 <= p <= s.len(),
        wf_entries(acc),
    ensures
        match spec_parse_members(s, p, acc) {
            PStep::Val(sv, _) => wf_value(sv),
            PStep::Fail(_) => true,
        },
    decreases s.len() - p, 2int,
{
    match token_at(s, p) {
        TokenStep::Tok(t, q) => match t {
            SpecToken::Str(k) => match token_at(s, q) {
                TokenStep::Tok(t2, q2) => {
                    if t2 is Colon && p < q2 <= s.len() {
                        lemma_parse_value_wf(s, q2);
                        match spec_parse_value(s, q2) {
                            PStep::Val(v, q3) => {
                                crate::value::lemma_upsert_wf(acc, k, v);
                                let acc2 = upsert_spec(acc, k, v);
                                match token_at(s, q3) {
                                    TokenStep::Tok(t3, q4) => {
                                        if t3 is Comma && p < q4 <= s.len() {
                                            lemma_parse_members_wf(s, q4, acc2);
                                        }
                                        if t3 is RightBrace && p < q3 <= s.len() {
                                            lemma_parse_members_wf(s, q3, acc2);
                                        }
                                    },
                                    _ => {},
                                }
                            },
                            PStep::Fail(_) => {},
                        }
                    }
                },
                _ => {},
            },
            _ => {},
        },
        _ => {},
    }
}

proof fn lemma_parse_array_wf(s: Seq<char>, p: int)
    requires
        0 <= p <= s.len(),
    ensures
        match spec_parse_array(s, p) {
            PStep::Val(sv, _) => wf_value(sv),
            PStep::Fail(_) => true,
        },
    decreases s.len() - p, 0int,
{
    match token_at(s, p) {
        TokenStep::Tok(SpecToken::LeftBracket, q) => {
            if p < q <= s.len() {
                lemma_parse_elements_wf(s, q, Seq::empty());
            }
        },
        _ => {},
    }
}

proof fn lemma_parse_elements_wf(s: Seq<char>, p: int, acc: Seq<SpecValue>)
    requires
        0 <= p <= s.len(),
        forall|i: int| 0 <= i < acc.len() ==> wf_value(#[trigger] acc[i]),
    ensures
        match spec_parse_elements(s, p, acc) {
            PStep::Val(sv, _) => wf_value(sv),
            PStep::Fail(_) => true,
        },
    decreases s.len() - p, 2int,
{
    lemma_parse_value_wf(s, p);
    match spec_parse_value(s, p) {
        PStep::Val(v, q) => {
            let acc2 = acc.push(v);
            assert(forall|i: int| 0 <= i < acc2.len() ==> wf_value(#[trigger] acc2[i])) by {
                assert(forall|i: int| 0 <= i < acc.len() ==> acc2[i] == acc[i]);
                assert(acc2[acc.len() as int] == v);
            }
            match token_at(s, q) {
                TokenStep::Tok(t, q2) => {
                    if t is Comma && p < q2 <= s.len() {
                        lemma_parse_elements_wf(s, q2, acc2);
                    }
                },
                _ => {},
            }
        },
        PStep::Fail(_) => {},
    }
}

/// Distinct-keys law: whatever tree a parse yields, every object in it
/// enumerates pairwise distinct keys, a repeated source key having been
/// written over its first occurrence.
pub proof fn lemma_parse_doc_wf(s: Seq<char>, p: int)
    requires
        0 <= p <= s.len(),
    ensures
        match spec_parse_doc(s, p) {
            PStep::Val(sv, _) => wf_value(sv),
            PStep::Fail(_) => true,
        },
{
    match token_at(s, p) {
        TokenStep::Tok(SpecToken::LeftBrace, _) => lemma_parse_object_wf(s, p),
        TokenStep::Tok(SpecToken::LeftBracket, _) => lemma_parse_array_wf(s, p),
        _ => {},
    }
}

/// The parser state: a scanner read with one token of lookahead.
pub struct Parser {
    t: Tokenizer,
}

impl Parser {
    /// The characters being parsed.
    pub closed spec fn spec_input(&self) -> Seq<char> {
        self.t.spec_input()
    }

    /// The cursor position.
    pub closed spec fn spec_pos(&self) -> int {
        self.t.spec_pos()
    }

    /// The cursor never lies beyond the end of the input.
    pub closed spec fn wf(&self) -> bool {
        self.t.wf()
    }

    /// Builds a parser over the input text.
    pub fn new(s: String) -> (p: Self)
        ensures
            p.wf(),
            p.spec_input() == s@,
            p.spec_pos() == 0,
    {
        Parser { t: Tokenizer::new(s) }
    }

    /// Parses a whole document: the value tree the interpreter assigns to
    /// the text, or its fatal error; tokens after the document are left
    /// unread.
    pub fn parse(&mut self) -> (r: Result<JValue, JsonError>)
        requires
            old(self).wf(),
        ensures
            final(self).wf(),
            final(self).spec_input() == old(self).spec_input(),
            match spec_parse_doc(old(self).spec_input(), old(self).spec_pos()) {
                PStep::Val(sv, q) => (r matches Ok(v) && abstracts(v, sv)) && final(self).spec_pos() == q,
                PStep::Fail(e) => r == Err::<JValue, JsonError>(e),
            },
    {
        match self.t.peek() {
            Err(e) => Err(JsonError::Lex(e)),
            Ok(None) => Err(JsonError::Syntax(SyntaxError::UnexpectedEnd)),
            Ok(Some(JToken::LeftBrace)) => self.parse_object(),
            Ok(Some(JToken::LeftBracket)) => self.parse_array(),
            Ok(Some(_)) => Err(JsonError::Syntax(SyntaxError::BadDocumentStart)),
        }
    }

    /// Parses one value: a scalar token, or a nested object or array.
    #[verifier::loop_isolation(false)]
    fn parse_value(&mut self) -> (r: Result<JValue, JsonError>)
        requires
            old(self).wf(),
        ensures
            final(self).wf(),
            final(self).spec_input() == old(self).spec_input(),
            r is Ok ==> old(self).spec_pos() < final(self).spec_pos(),
            match spec_parse_value(old(self).spec_input(), old(self).spec_pos()) {
                PStep::Val(sv, q) => (r matches Ok(v) && abstracts(v, sv)) && final(self).spec_pos() == q,
                PStep::Fail(e) => r == Err::<JValue, JsonError>(e),
            },
        decreases self.spec_input().len() - self.spec_pos(), 1int,
    {
        let ghost s = self.t.spec_input();
        let ghost p0 = self.t.spec_pos();
        proof {
            crate::tokenizer::lemma_token_bounds(s, p0);
        }
        match self.t.peek() {
            Err(e) => Err(JsonError::Lex(e)),
            Ok(None) => Err(JsonError::Syntax(SyntaxError::UnexpectedEnd)),
            Ok(Some(tok)) => match tok {
                JToken::Null => {
                    let _ = self.t.next();
                    Ok(JValue::Null)
                },
                JToken::Bool(b) => {
                    let _ = self.t.next();
                    Ok(JValue::Bool(b))
                },
                JToken::String(st) => {
                    let _ = self.t.next();
                    Ok(JValue::String(st))
                },
                JToken::Number(n) => {
                    let _ = self.t.next();
                    Ok(JValue::Number(n))
                },
                JToken::LeftBrace => self.parse_object(),
                JToken::LeftBracket => self.parse_array(),
                _ => Err(JsonError::Syntax(SyntaxError::ExpectedValue)),
            },
        }
    }

    /// Parses an object, whose `{` the cursor stands on: members are read
    /// and written in source order, a repeated key keeping its first
    /// position and taking the later value.
    #[verifier::loop_isolation(false)]
    #[verifier::rlimit(60)]
    pub fn parse_object(&mut self) -> (r: Result<JValue, JsonError>)
        requires
            old(self).wf(),
            token_at(old(self).spec_input(), old(self).spec_pos()) matches TokenStep::Tok(
                SpecToken::LeftBrace,
                _,
            ),
        ensures
            final(self).wf(),
            final(self).spec_input() == old(self).spec_input(),
            r is Ok ==> old(self).spec_pos() < final(self).spec_pos(),
            match spec_parse_object(old(self).spec_input(), old(self).spec_pos()) {
                PStep::Val(sv, q) => (r matches Ok(v) && abstracts(v, sv)) && final(self).spec_pos() == q,
                PStep::Fail(e) => r == Err::<JValue, JsonError>(e),
            },
        decreases self.spec_input().len() - self.spec_pos(), 0int,
    {
        let ghost s = self.t.spec_input();
        let ghost p_entry = self.t.spec_pos();
        proof {
            crate::tokenizer::lemma_token_bounds(s, p_entry);
        }
        match self.t.next() {
            Ok(Some(JToken::LeftBrace)) => {},
            _ => {
                proof {
                    assert(false);
                }
                return Err(JsonError::Syntax(SyntaxError::BadDocumentStart));
            },
        }
        let ghost p0 = self.t.spec_pos();
        let mut m = ObjectMap::new();
        let ghost mut acc: Seq<(Seq<char>, SpecValue)> = Seq::empty();
        loop
            invariant
                self.t.wf(),
                self.t.spec_input() == s,
                0 <= p_entry < p0 <= self.t.spec_pos() <= s.len(),
                spec_parse_members(s, p0, Seq::<(Seq<char>, SpecValue)>::empty())
                    == spec_parse_members(s, self.t.spec_pos(), acc),
                entries_abstract(obj_entries(m), acc),
            decreases s.len() - self.t.spec_pos(),
        {
            let ghost pcur = self.t.spec_pos();
            proof {
                crate::tokenizer::lemma_token_bounds(s, pcur);
            }
            match self.t.peek() {
                Err(e) => {
                    return Err(JsonError::Lex(e));
                },
                Ok(None) => {
                    return Err(JsonError::Syntax(SyntaxError::UnexpectedEnd));
                },
                Ok(Some(tok)) => match tok {
                    JToken::RightBrace => {
                        let _ = self.t.next();
                        return Ok(JValue::Object(m));
                    },
                    JToken::String(k) => {
                        let ghost kview = k@;
                        let _ = self.t.next();
                        let ghost qk = self.t.spec_pos();
                        proof {
                            crate::tokenizer::lemma_token_bounds(s, qk);
                        }
                        match self.t.next() {
                            Err(e) => {
                                return Err(JsonError::Lex(e));
                            },
                            Ok(None) => {
                                return Err(JsonError::Syntax(SyntaxError::UnexpectedEnd));
                            },
                            Ok(Some(JToken::Collon)) => {},
                            Ok(Some(_)) => {
                                return Err(JsonError::Syntax(SyntaxError::ExpectedColon));
                            },
                        }
                        let ghost qc = self.t.spec_pos();
                        let v = match self.parse_value() {
                            Ok(v) => v,
                            Err(e) => {
                                return Err(e);
                            },
                        };
                        let ghost sv = match spec_parse_value(s, qc) {
                            PStep::Val(sv0, _) => sv0,
                            PStep::Fail(_) => SpecValue::Null,
                        };
                        let ghost q3 = self.t.spec_pos();
                        proof {
                            crate::tokenizer::lemma_token_bounds(s, q3);
                        }
                        let ghost es_old = obj_entries(m);
                        m.insert(k, v);
                        proof {
                            crate::value::lemma_upsert_abstract(es_old, acc, kview, v, sv);
                            acc = upsert_spec(acc, kview, sv);
                        }
                        match self.t.peek() {
                            Err(e) => {
                                return Err(JsonError::Lex(e));
                            },
                            Ok(None) => {
                                return Err(JsonError::Syntax(SyntaxError::UnexpectedEnd));
                            },
                            Ok(Some(JToken::Comma)) => {
                                let _ = self.t.next();
                            },
                            Ok(Some(JToken::RightBrace)) => {},
                            Ok(Some(_)) => {
                                return Err(JsonError::Syntax(SyntaxError::ExpectedSeparator));
                            },
                        }
                    },
                    _ => {
                        return Err(JsonError::Syntax(SyntaxError::ExpectedKey));
                    },
                },
            }
        }
    }

    /// Parses an array, whose `[` the cursor stands on: elements are read
    /// and appended in source order; a `,` must be followed by another
    /// element, so a trailing comma before the `]` is fatal.
    #[verifier::loop_isolation(false)]
    #[verifier::rlimit(60)]
    pub fn parse_array(&mut self) -> (r: Result<JValue, JsonError>)
        requires
            old(self).wf(),
            token_at(old(self).spec_input(), old(self).spec_pos()) matches TokenStep::Tok(
                SpecToken::LeftBracket,
                _,
            ),
        ensures
            final(self).wf(),
            final(self).spec_input() == old(self).spec_input(),
            r is Ok ==> old(self).spec_pos() < final(self).spec_pos(),
            match spec_parse_array(old(self).spec_input(), old(self).spec_pos()) {
                PStep::Val(sv, q) => (r matches Ok(v) && abstracts(v, sv)) && final(self).spec_pos() == q,
                PStep::Fail(e) => r == Err::<JValue, JsonError>(e),
            },
        decreases self.spec_input().len() - self.spec_pos(), 0int,
    {
        let ghost s = self.t.spec_input();
        let ghost p_entry = self.t.spec_pos();
        proof {
            crate::tokenizer::lemma_token_bounds(s, p_entry);
        }
        match self.t.next() {
            Ok(Some(JToken::LeftBracket)) => {},
            _ => {
                proof {
                    assert(false);
                }
                return Err(JsonError::Syntax(SyntaxError::BadDocumentStart));
            },
        }
        let ghost p0 = self.t.spec_pos();
        proof {
            crate::tokenizer::lemma_token_bounds(s, p0);
        }
        match self.t.peek() {
            Err(e) => {
                return Err(JsonError::Lex(e));
            },
            Ok(Some(JToken::RightBracket)) => {
                let _ = self.t.next();
                return Ok(JValue::Array(Vec::new()));
            },
            _ => {},
        }
        let mut arr: Vec<JValue> = Vec::new();
        let ghost mut acc: Seq<SpecValue> = Seq::empty();
        loop
            invariant
                self.t.wf(),
                self.t.spec_input() == s,
                0 <= p_entry < p0 <= self.t.spec_pos() <= s.len(),
                spec_parse_elements(s, p0, Seq::<SpecValue>::empty()) == spec_parse_elements(
                    s,
                    self.t.spec_pos(),
                    acc,
                ),
                arr@.len() == acc.len(),
                forall|i: int| 0 <= i < acc.len() ==> abstracts(arr@[i], #[trigger] acc[i]),
            decreases s.len() - self.t.spec_pos(),
        {
            let ghost pcur = self.t.spec_pos();
            let ghost sv = match spec_parse_value(s, pcur) {
                PStep::Val(sv0, _) => sv0,
                PStep::Fail(_) => SpecValue::Null,
            };
            let v = match self.parse_value() {
                Ok(v) => v,
                Err(e) => {
                    return Err(e);
                },
            };
            arr.push(v);
            proof {
                acc = acc.push(sv);
            }
            let ghost q3 = self.t.spec_pos();
            proof {
                crate::tokenizer::lemma_token_bounds(s, q3);
            }
            match self.t.peek() {
                Err(e) => {
                    return Err(JsonError::Lex(e));
                },
                Ok(None) => {
                    return Err(JsonError::Syntax(SyntaxError::UnexpectedEnd));
                },
                Ok(Some(JToken::Comma)) => {
                    let _ = self.t.next();
                },
                Ok(Some(JToken::RightBracket)) => {
                    let _ = self.t.next();
                    return Ok(JValue::Array(arr));
                },
                Ok(Some(_)) => {
                    return Err(JsonError::Syntax(SyntaxError::ExpectedSeparator));
                },
            }
        }
    }
}

} // verus!
