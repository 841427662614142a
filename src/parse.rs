use vstd::prelude::*;

use crate::token::{AcfToken, ParseError, TokenView};

verus! {

/// The bytes that separate tokens: tab, line feed, vertical tab, form feed,
/// carriage return and space.
pub open spec fn is_ws(b: u8) -> bool {
    (9 <= b && b <= 13) || b == 32
}

/// Each byte stands for the character with the same code.
pub open spec fn latin1(b: Seq<u8>) -> Seq<char> {
    b.map_values(|x: u8| x as char)
}

/// The first index at or after `i` that holds no whitespace, or the end of `s`.
pub open spec fn skip_ws(s: Seq<u8>, i: int) -> int
    decreases s.len() - i,
{
    if i >= s.len() || !is_ws(s[i]) {
        i
    } else {
        skip_ws(s, i + 1)
    }
}

/// The first index at or after `i` that holds a double quote, or the end of `s`.
pub open spec fn quote_at(s: Seq<u8>, i: int) -> int
    decreases s.len() - i,
{
    if i >= s.len() || s[i] == 34 {
        i
    } else {
        quote_at(s, i + 1)
    }
}

/// What one read of the tokenizer produces.
pub enum LexTok {
    Token(TokenView),
    End,
    Fail(ParseError),
}

/// One read of the tokenizer: what it produced and where the cursor stands after it.
pub struct Lexed {
    pub tok: LexTok,
    pub next: int,
}

/// The next token of `s` from position `i` on.
pub open spec fn lex(s: Seq<u8>, i: int) -> Lexed {
    let j = skip_ws(s, i);
    if j >= s.len() {
        Lexed { tok: LexTok::End, next: j }
    } else if s[j] == 123 {
        Lexed { tok: LexTok::Token(TokenView::DictStart), next: j + 1 }
    } else if s[j] == 125 {
        Lexed { tok: LexTok::Token(TokenView::DictEnd), next: j + 1 }
    } else if s[j] == 34 {
        let k = quote_at(s, j + 1);
        if k >= s.len() {
            Lexed { tok: LexTok::Fail(ParseError::UnterminatedString), next: k }
        } else {
            Lexed { tok: LexTok::Token(TokenView::Str(latin1(s.subrange(j + 1, k)))), next: k + 1 }
        }
    } else {
        Lexed { tok: LexTok::Fail(ParseError::UnexpectedCharacter(s[j] as char)), next: j + 1 }
    }
}

/// What a result of `try_next` says, as a `LexTok`.
pub open spec fn lexed_as(r: Result<Option<AcfToken>, ParseError>) -> LexTok {
    match r {
        Ok(Some(t)) => LexTok::Token(t@),
        Ok(None) => LexTok::End,
        Err(e) => LexTok::Fail(e),
    }
}

pub proof fn lemma_skip_ws_bounds(s: Seq<u8>, i: int)
    requires
        0 <= i <= s.len(),
    ensures
        i <= skip_ws(s, i) <= s.len(),
        forall|k: int| i <= k < skip_ws(s, i) ==> is_ws(#[trigger] s[k]),
    decreases s.len() - i,
{
    if i < s.len() && is_ws(s[i]) {
        lemma_skip_ws_bounds(s, i + 1);
    }
}

pub proof fn lemma_quote_at_bounds(s: Seq<u8>, i: int)
    requires
        0 <= i <= s.len(),
    ensures
        i <= quote_at(s, i) <= s.len(),
        quote_at(s, i) < s.len() ==> s[quote_at(s, i)] == 34,
        forall|k: int| i <= k < quote_at(s, i) ==> #[trigger] s[k] != 34,
    decreases s.len() - i,
{
    if i < s.len() && s[i] != 34 {
        lemma_quote_at_bounds(s, i + 1);
    }
}

/// A read never moves the cursor back nor past the end; a token takes at least one byte.
pub proof fn lemma_lex_advances(s: Seq<u8>, i: int)
    requires
        0 <= i <= s.len(),
    ensures
        i <= lex(s, i).next <= s.len(),
        lex(s, i).tok is Token ==> i < lex(s, i).next,
        lex(s, i).tok is End ==> lex(s, i).next == s.len(),
{
    lemma_skip_ws_bounds(s, i);
    let j = skip_ws(s, i);
    if j < s.len() && s[j] == 34 {
        lemma_quote_at_bounds(s, j + 1);
    }
}

/// Relies on `String::push`: the character is appended at the end.
#[verifier::external_body]
fn push_char(s: &mut String, c: char)
    ensures
        final(s)@ == old(s)@.push(c),
{
    s.push(c)
}

/// The tokenizer: a forward-only cursor over the bytes of a document.
pub struct AcfTokenStream {
    read: Vec<u8>,
    pos: usize,
}

impl AcfTokenStream {
    /// The whole input.
    pub closed spec fn bytes(&self) -> Seq<u8> {
        self.read@
    }

    /// How many bytes have been consumed.
    pub closed spec fn pos(&self) -> int {
        self.pos as int
    }

    pub closed spec fn wf(&self) -> bool {
        self.pos <= self.read.len()
    }

    pub proof fn lemma_wf(&self)
        requires
            self.wf(),
        ensures
            0 <= self.pos() <= self.bytes().len(),
    {
    }

    /// The token that the next read yields.
    pub open spec fn next_lexed(&self) -> Lexed {
        lex(self.bytes(), self.pos())
    }

    pub fn new(read: Vec<u8>) -> (r: Self)
        ensures
            r.wf(),
            r.bytes() == read@,
            r.pos() == 0,
    {
        AcfTokenStream { read, pos: 0 }
    }

    /// Reads one token, skipping whitespace before it; `None` at the end of input.
    pub fn try_next(&mut self) -> (r: Result<Option<AcfToken>, ParseError>)
        requires
            old(self).wf(),
        ensures
            final(self).wf(),
            final(self).bytes() == old(self).bytes(),
            lexed_as(r) == old(self).next_lexed().tok,
            final(self).pos() == old(self).next_lexed().next,
    {
        proof {
            lemma_skip_ws_bounds(self.bytes(), self.pos());
        }
        let c = self.next_non_whitespace_char();
        match c {
            None => Ok(None),
            Some(c) => {
                if c == '{' {
                    Ok(Some(AcfToken::DictStart))
                } else if c == '}' {
                    Ok(Some(AcfToken::DictEnd))
                } else if c == '"' {
                    let t = self.parse_str();
                    match t {
                        Ok(t) => Ok(Some(t)),
                        Err(e) => Err(e),
                    }
                } else {
                    Err(ParseError::UnexpectedCharacter(c))
                }
            },
        }
    }

    fn next_char(&mut self) -> (r: Option<char>)
        requires
            old(self).wf(),
        ensures
            final(self).wf(),
            final(self).bytes() == old(self).bytes(),
            old(self).pos() < old(self).bytes().len() ==> r == Some(
                old(self).bytes()[old(self).pos()] as char,
            ) && final(self).pos() == old(self).pos() + 1,
            old(self).pos() >= old(self).bytes().len() ==> r is None && final(self).pos()
                == old(self).pos(),
    {
        if self.pos < self.read.len() {
            let b = self.read[self.pos];
            self.pos = self.pos + 1;
            Some(b as char)
        } else {
            None
        }
    }

    fn next_non_whitespace_char(&mut self) -> (r: Option<char>)
        requires
            old(self).wf(),
        ensures
            final(self).wf(),
            final(self).bytes() == old(self).bytes(),
            ({
                let j = skip_ws(old(self).bytes(), old(self).pos());
                &&& j < old(self).bytes().len() ==> r == Some(old(self).bytes()[j] as char)
                    && final(self).pos() == j + 1
                &&& j >= old(self).bytes().len() ==> r is None && final(self).pos() == j
            }),
    {
        let ghost s = self.bytes();
        let ghost start = self.pos();
        loop
            invariant
                self.wf(),
                self.bytes() == s,
                s == old(self).bytes(),
                start == old(self).pos(),
                start <= self.pos(),
                skip_ws(s, start) == skip_ws(s, self.pos()),
            decreases s.len() - self.pos(),
        {
            let c = self.next_char();
            match c {
                None => {
                    return None;
                },
                Some(c) => {
                    if !(c == ' ' || c == '\t' || c == '\n' || c == '\r' || c == '\x0B' || c
                        == '\x0C') {
                        return Some(c);
                    }
                },
            }
        }
    }

    fn parse_str(&mut self) -> (r: Result<AcfToken, ParseError>)
        requires
            old(self).wf(),
        ensures
            final(self).wf(),
            final(self).bytes() == old(self).bytes(),
            ({
                let s = old(self).bytes();
                let k = quote_at(s, old(self).pos());
                &&& k >= s.len() ==> r == Err::<AcfToken, ParseError>(
                    ParseError::UnterminatedString,
                ) && final(self).pos() == k
                &&& k < s.len() ==> r is Ok && r->Ok_0@ == TokenView::Str(
                    latin1(s.subrange(old(self).pos(), k)),
                ) && final(self).pos() == k + 1
            }),
    {
        let ghost s = self.bytes();
        let ghost start = self.pos();
        let mut buf = String::new();
        loop
            invariant
                self.wf(),
                self.bytes() == s,
                s == old(self).bytes(),
                start == old(self).pos(),
                start <= self.pos(),
                quote_at(s, start) == quote_at(s, self.pos()),
                buf@ == latin1(s.subrange(start, self.pos())),
            decreases s.len() - self.pos(),
        {
            let ghost p = self.pos();
            let c = self.next_char();
            match c {
                None => {
                    return Err(ParseError::UnterminatedString);
                },
                Some(c) => {
                    if c == '"' {
                        return Ok(AcfToken::String(buf));
                    }
                    push_char(&mut buf, c);
                    assert(latin1(s.subrange(start, self.pos())) =~= latin1(
                        s.subrange(start, p),
                    ).push(c));
                },
            }
        }
    }
}

} // verus!
