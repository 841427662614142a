use vstd::prelude::*;

use crate::parse::{AcfTokenStream, LexTok, Lexed, lex, lexed_as, lemma_lex_advances};
use crate::stream::{ErrorView, StreamError, res_view};
use crate::token::{AcfToken, ParseError, TokenView};

verus! {

/// How JSON text is laid out.
#[derive(Clone, Copy, Debug, PartialEq, Eq, Structural)]
pub enum JsonWriterCfg {
    /// Everything on one line, with no spaces.
    Compact,
    /// One field per line, indented by `indent` spaces per level.
    Pretty { indent: u8 },
}

/// `n` spaces.
pub open spec fn spaces(n: nat) -> Seq<char> {
    Seq::new(n, |i: int| ' ')
}

/// What starts a line at the given depth.
pub open spec fn newline_text(cfg: JsonWriterCfg, depth: int) -> Seq<char> {
    match cfg {
        JsonWriterCfg::Compact => Seq::empty(),
        JsonWriterCfg::Pretty { indent } => seq!['\n'] + spaces((depth * indent) as nat),
    }
}

/// A string between double quotes, unescaped.
pub open spec fn quoted(s: Seq<char>) -> Seq<char> {
    seq!['"'] + s + seq!['"']
}

/// What precedes the value of a field called `name`.
pub open spec fn field_text(cfg: JsonWriterCfg, depth: int, name: Seq<char>) -> Seq<char> {
    newline_text(cfg, depth) + quoted(name) + seq![':'] + match cfg {
        JsonWriterCfg::Compact => Seq::empty(),
        JsonWriterCfg::Pretty { .. } => seq![' '],
    }
}

/// The text written by an emission, how it ended, and where the token cursor stands after it.
pub struct Emitted {
    pub out: Seq<char>,
    pub res: Result<(), ErrorView>,
    pub next: int,
}

/// Emission from the token `l` on, where a key or the end of the current object is due.
/// The writer stands `level` objects below `base`; the emission ends when the object
/// opened at `base` closes.
pub open spec fn emit_tok(
    cfg: JsonWriterCfg,
    s: Seq<u8>,
    l: Lexed,
    base: int,
    level: int,
    first: bool,
) -> Emitted
    decreases s.len() - l.next, level,
    when 0 <= l.next <= s.len() && 1 <= level
{
    match l.tok {
        LexTok::Fail(e) => Emitted { out: Seq::empty(), res: Err(ErrorView::Parse(e)), next: l.next },
        LexTok::Token(TokenView::DictStart) => Emitted {
            out: Seq::empty(),
            res: Err(ErrorView::UnexpectedToken(TokenView::DictStart)),
            next: l.next,
        },
        LexTok::Token(TokenView::Str(n)) => {
            let head = (if first {
                Seq::empty()
            } else {
                seq![',']
            }) + field_text(cfg, base + level, n);
            let v = lex(s, l.next);
            proof {
                lemma_lex_advances(s, l.next);
                lemma_lex_advances(s, v.next);
            }
            match v.tok {
                LexTok::Fail(e) => Emitted { out: head, res: Err(ErrorView::Parse(e)), next: v.next },
                LexTok::End => Emitted {
                    out: head,
                    res: Err(ErrorView::Parse(ParseError::UnexpectedEof)),
                    next: v.next,
                },
                LexTok::Token(TokenView::Str(x)) => {
                    let rest = emit_tok(cfg, s, lex(s, v.next), base, level, false);
                    Emitted { out: head + quoted(x) + rest.out, res: rest.res, next: rest.next }
                },
                LexTok::Token(TokenView::DictStart) => {
                    let rest = emit_tok(cfg, s, lex(s, v.next), base, level + 1, true);
                    Emitted { out: head + seq!['{'] + rest.out, res: rest.res, next: rest.next }
                },
                LexTok::Token(TokenView::DictEnd) => Emitted {
                    out: head,
                    res: Err(ErrorView::UnexpectedToken(TokenView::DictEnd)),
                    next: v.next,
                },
            }
        },
        _ => {
            let close = newline_text(cfg, base + level - 1) + seq!['}'];
            if level <= 1 {
                Emitted { out: close, res: Ok(()), next: l.next }
            } else {
                proof {
                    lemma_lex_advances(s, l.next);
                }
                let rest = emit_tok(cfg, s, lex(s, l.next), base, level - 1, false);
                Emitted { out: close + rest.out, res: rest.res, next: rest.next }
            }
        },
    }
}

/// Emission of one object from position `pos` of `s`, by a writer at depth `base`. The
/// object is opened by a leading `{` when there is one, and otherwise implicitly, so that
/// the contents of a dictionary without braces also form an object.
pub open spec fn emit_doc(cfg: JsonWriterCfg, s: Seq<u8>, pos: int, base: int) -> Emitted {
    let l = lex(s, pos);
    let start = if l.tok == LexTok::Token(TokenView::DictStart) {
        lex(s, l.next)
    } else {
        l
    };
    let body = emit_tok(cfg, s, start, base, 1, true);
    Emitted { out: seq!['{'] + body.out, res: body.res, next: body.next }
}

/// The reads from `pos` on: every token, then the end of input or the error that stops them.
pub open spec fn tokens_from(s: Seq<u8>, pos: int) -> Seq<LexTok>
    decreases s.len() - pos,
    when 0 <= pos <= s.len()
{
    let l = lex(s, pos);
    proof {
        lemma_lex_advances(s, pos);
    }
    match l.tok {
        LexTok::Token(_) => seq![l.tok] + tokens_from(s, l.next),
        _ => seq![l.tok],
    }
}

/// Two reads that yield the same token, with the same reads after it.
pub open spec fn same_reads(s1: Seq<u8>, l1: Lexed, s2: Seq<u8>, l2: Lexed) -> bool {
    &&& 0 <= l1.next <= s1.len()
    &&& 0 <= l2.next <= s2.len()
    &&& l1.tok == l2.tok
    &&& l1.tok is End ==> l1.next == s1.len() && l2.next == s2.len()
    &&& l1.tok is Token ==> tokens_from(s1, l1.next) == tokens_from(s2, l2.next)
}

proof fn lemma_same_reads_at(s1: Seq<u8>, pos1: int, s2: Seq<u8>, pos2: int)
    requires
        0 <= pos1 <= s1.len(),
        0 <= pos2 <= s2.len(),
        tokens_from(s1, pos1) == tokens_from(s2, pos2),
    ensures
        same_reads(s1, lex(s1, pos1), s2, lex(s2, pos2)),
{
    lemma_lex_advances(s1, pos1);
    lemma_lex_advances(s2, pos2);
    let l1 = lex(s1, pos1);
    let l2 = lex(s2, pos2);
    assert(tokens_from(s1, pos1)[0] == l1.tok);
    assert(tokens_from(s2, pos2)[0] == l2.tok);
    if l1.tok is Token {
        assert(tokens_from(s1, l1.next) =~= tokens_from(s1, pos1).subrange(
            1,
            tokens_from(s1, pos1).len() as int,
        ));
        assert(tokens_from(s2, l2.next) =~= tokens_from(s2, pos2).subrange(
            1,
            tokens_from(s2, pos2).len() as int,
        ));
    }
}

proof fn lemma_same_reads_next(s1: Seq<u8>, l1: Lexed, s2: Seq<u8>, l2: Lexed)
    requires
        same_reads(s1, l1, s2, l2),
        !(l1.tok is Fail),
    ensures
        same_reads(s1, lex(s1, l1.next), s2, lex(s2, l2.next)),
{
    if l1.tok is Token {
        lemma_same_reads_at(s1, l1.next, s2, l2.next);
    } else {
        lemma_lex_advances(s1, l1.next);
        lemma_lex_advances(s2, l2.next);
        lemma_skip_ws_end(s1);
        lemma_skip_ws_end(s2);
    }
}

proof fn lemma_skip_ws_end(s: Seq<u8>)
    ensures
        lex(s, s.len() as int).tok is End,
        lex(s, s.len() as int).next == s.len(),
{
}

proof fn lemma_emit_tok_same(
    cfg: JsonWriterCfg,
    s1: Seq<u8>,
    l1: Lexed,
    s2: Seq<u8>,
    l2: Lexed,
    base: int,
    level: int,
    first: bool,
)
    requires
        same_reads(s1, l1, s2, l2),
        1 <= level,
    ensures
        emit_tok(cfg, s1, l1, base, level, first).out == emit_tok(
            cfg,
            s2,
            l2,
            base,
            level,
            first,
        ).out,
        emit_tok(cfg, s1, l1, base, level, first).res == emit_tok(
            cfg,
            s2,
            l2,
            base,
            level,
            first,
        ).res,
    decreases s1.len() - l1.next, level,
{
    match l1.tok {
        LexTok::Token(TokenView::Str(_)) => {
            lemma_same_reads_next(s1, l1, s2, l2);
            let v1 = lex(s1, l1.next);
            let v2 = lex(s2, l2.next);
            lemma_lex_advances(s1, l1.next);
            if v1.tok is Token {
                lemma_same_reads_next(s1, v1, s2, v2);
                lemma_lex_advances(s1, v1.next);
                lemma_emit_tok_same(cfg, s1, lex(s1, v1.next), s2, lex(s2, v2.next), base, level, false);
                lemma_emit_tok_same(
                    cfg,
                    s1,
                    lex(s1, v1.next),
                    s2,
                    lex(s2, v2.next),
                    base,
                    level + 1,
                    true,
                );
            }
        },
        LexTok::Token(TokenView::DictStart) => {},
        LexTok::Fail(_) => {},
        _ => {
            if level > 1 {
                lemma_same_reads_next(s1, l1, s2, l2);
                lemma_lex_advances(s1, l1.next);
                lemma_emit_tok_same(
                    cfg,
                    s1,
                    lex(s1, l1.next),
                    s2,
                    lex(s2, l2.next),
                    base,
                    level - 1,
                    false,
                );
            }
        },
    }
}

/// Emission is a function of the token sequence alone: two inputs that read as the same
/// tokens (whatever whitespace stands between them) render as the same JSON text with the
/// same outcome, so emitting a captured token sequence twice gives identical output.
pub proof fn lemma_emission_stable(
    cfg: JsonWriterCfg,
    s1: Seq<u8>,
    pos1: int,
    s2: Seq<u8>,
    pos2: int,
    base: int,
)
    requires
        0 <= pos1 <= s1.len(),
        0 <= pos2 <= s2.len(),
        tokens_from(s1, pos1) == tokens_from(s2, pos2),
    ensures
        emit_doc(cfg, s1, pos1, base).out == emit_doc(cfg, s2, pos2, base).out,
        emit_doc(cfg, s1, pos1, base).res == emit_doc(cfg, s2, pos2, base).res,
{
    lemma_same_reads_at(s1, pos1, s2, pos2);
    let l1 = lex(s1, pos1);
    let l2 = lex(s2, pos2);
    if l1.tok == LexTok::Token(TokenView::DictStart) {
        lemma_same_reads_next(s1, l1, s2, l2);
        lemma_emit_tok_same(cfg, s1, lex(s1, l1.next), s2, lex(s2, l2.next), base, 1, true);
    } else {
        lemma_emit_tok_same(cfg, s1, l1, s2, l2, base, 1, true);
    }
}

/// Renders a token stream as JSON text, appended to `out`.
pub struct JsonWriter {
    pub out: String,
    pub cfg: JsonWriterCfg,
    pub depth: usize,
}

impl JsonWriter {
    pub fn new(cfg: JsonWriterCfg, out: String) -> (r: Self)
        ensures
            r.out@ == out@,
            r.cfg == cfg,
            r.depth == 0,
    {
        JsonWriter { out, cfg, depth: 0 }
    }

    fn newline(&mut self)
        ensures
            final(self).out@ == old(self).out@ + newline_text(old(self).cfg, old(self).depth as int),
            final(self).cfg == old(self).cfg,
            final(self).depth == old(self).depth,
    {
        match self.cfg {
            JsonWriterCfg::Compact => {
                assert(newline_text(self.cfg, self.depth as int) =~= Seq::<char>::empty());
                assert(self.out@ + Seq::<char>::empty() =~= self.out@);
            },
            JsonWriterCfg::Pretty { indent } => {
                proof {
                    reveal_strlit("\n");
                }
                let ghost start = self.out@;
                self.out.append("\n");
                let mut level: usize = 0;
                while level < self.depth
                    invariant
                        level <= self.depth,
                        self.depth == old(self).depth,
                        self.cfg == old(self).cfg,
                        start == old(self).out@,
                        self.out@ == start + seq!['\n'] + spaces((level * indent) as nat),
                    decreases self.depth - level,
                {
                    let mut k: u8 = 0;
                    while k < indent
                        invariant
                            k <= indent,
                            level < self.depth,
                            self.depth == old(self).depth,
                            self.cfg == old(self).cfg,
                            start == old(self).out@,
                            self.out@ == start + seq!['\n'] + spaces((level * indent + k) as nat),
                        decreases indent - k,
                    {
                        let ghost m = (level * indent + k) as nat;
                        let ghost before = self.out@;
                        proof {
                            reveal_strlit(" ");
                        }
                        self.out.append(" ");
                        assert(spaces(m + 1) =~= spaces(m).push(' '));
                        assert(self.out@ =~= before + seq![' ']);
                        assert(self.out@ =~= start + seq!['\n'] + spaces(m + 1));
                        k = k + 1;
                    }
                    assert((level + 1) * indent == level * indent + indent) by (nonlinear_arith);
                    level = level + 1;
                }
                assert(self.out@ =~= start + newline_text(self.cfg, self.depth as int));
            },
        }
    }

    fn write_string(&mut self, s: &str)
        ensures
            final(self).out@ == old(self).out@ + quoted(s@),
            final(self).cfg == old(self).cfg,
            final(self).depth == old(self).depth,
    {
        proof {
            reveal_strlit("\"");
        }
        self.out.append("\"");
        self.out.append(s);
        self.out.append("\"");
        assert(self.out@ =~= old(self).out@ + quoted(s@));
    }

    /// Writes a string value.
    pub fn string_value(&mut self, s: &str)
        ensures
            final(self).out@ == old(self).out@ + quoted(s@),
            final(self).cfg == old(self).cfg,
            final(self).depth == old(self).depth,
    {
        self.write_string(s)
    }

    /// Opens an object, one level deeper.
    pub fn begin_obj(&mut self)
        requires
            old(self).depth < usize::MAX,
        ensures
            final(self).out@ == old(self).out@ + seq!['{'],
            final(self).cfg == old(self).cfg,
            final(self).depth == old(self).depth + 1,
    {
        proof {
            reveal_strlit("{");
        }
        self.depth = self.depth + 1;
        self.out.append("{");
    }

    /// Closes an object on a line of its own, one level up.
    pub fn end_obj(&mut self)
        requires
            old(self).depth > 0,
        ensures
            final(self).out@ == old(self).out@ + newline_text(old(self).cfg, old(self).depth - 1)
                + seq!['}'],
            final(self).cfg == old(self).cfg,
            final(self).depth == old(self).depth - 1,
    {
        proof {
            reveal_strlit("}");
        }
        self.depth = self.depth - 1;
        self.newline();
        self.out.append("}");
        assert(self.out@ =~= old(self).out@ + newline_text(old(self).cfg, old(self).depth - 1)
            + seq!['}']);
    }

    /// Starts a field called `name` on a line of its own, up to where its value goes.
    pub fn begin_field(&mut self, name: &str)
        ensures
            final(self).out@ == old(self).out@ + field_text(
                old(self).cfg,
                old(self).depth as int,
                name@,
            ),
            final(self).cfg == old(self).cfg,
            final(self).depth == old(self).depth,
    {
        proof {
            reveal_strlit(":");
            reveal_strlit(" ");
        }
        self.newline();
        self.write_string(name);
        self.out.append(":");
        match self.cfg {
            JsonWriterCfg::Pretty { .. } => {
                self.out.append(" ");
            },
            _ => {},
        }
        assert(self.out@ =~= old(self).out@ + field_text(
            old(self).cfg,
            old(self).depth as int,
            name@,
        ));
    }

    /// Renders one object read from `tokens`: its fields in order, string values quoted,
    /// dictionary values as nested objects. A leading `{` opens the object; without one the
    /// tokens are taken as the contents of an object. The object ends at its closing `}` or
    /// at the end of input, which closes every object still open.
    pub fn write(&mut self, tokens: &mut AcfTokenStream) -> (r: Result<(), StreamError>)
        requires
            old(tokens).wf(),
            old(self).depth + old(tokens).bytes().len() + 2 <= usize::MAX,
        ensures
            final(tokens).wf(),
            final(tokens).bytes() == old(tokens).bytes(),
            ({
                let e = emit_doc(
                    old(self).cfg,
                    old(tokens).bytes(),
                    old(tokens).pos(),
                    old(self).depth as int,
                );
                &&& final(self).out@ == old(self).out@ + e.out
                &&& res_view(r, |u: ()| u) == e.res
                &&& final(tokens).pos() == e.next
            }),
            final(self).cfg == old(self).cfg,
            r is Ok ==> final(self).depth == old(self).depth,
    {
        let ghost s = tokens.bytes();
        let ghost base = self.depth as int;
        let ghost out0 = self.out@;
        let ghost p0 = tokens.pos();
        let ghost total = emit_doc(self.cfg, s, p0, base);
        proof {
            tokens.lemma_wf();
            lemma_lex_advances(s, p0);
        }
        let base_depth = self.depth;
        self.begin_obj();
        let ghost mut cur: Lexed = lex(s, p0);
        let mut t = tokens.try_next();
        if let Ok(Some(AcfToken::DictStart)) = &t {
            proof {
                lemma_lex_advances(s, cur.next);
                cur = lex(s, cur.next);
            }
            t = tokens.try_next();
        }
        let mut first = true;
        loop
            invariant
                tokens.wf(),
                tokens.bytes() == s,
                s == old(tokens).bytes(),
                p0 == old(tokens).pos(),
                base == old(self).depth,
                base_depth == old(self).depth,
                out0 == old(self).out@,
                self.cfg == old(self).cfg,
                total == emit_doc(old(self).cfg, s, p0, base),
                base + s.len() + 2 <= usize::MAX,
                lexed_as(t) == cur.tok,
                tokens.pos() == cur.next,
                0 <= p0 <= cur.next <= s.len(),
                base < self.depth <= base + 1 + (cur.next - p0),
                ({
                    let e = emit_tok(self.cfg, s, cur, base, self.depth - base, first);
                    &&& self.out@ + e.out == out0 + total.out
                    &&& e.res == total.res
                    &&& e.next == total.next
                }),
            decreases s.len() - tokens.pos(), self.depth,
        {
            let ghost out1 = self.out@;
            match t {
                Err(e) => {
                    assert(self.out@ + Seq::<char>::empty() =~= self.out@);
                    return Err(StreamError::Parse(e));
                },
                Ok(Some(AcfToken::DictStart)) => {
                    assert(self.out@ + Seq::<char>::empty() =~= self.out@);
                    return Err(StreamError::UnexpectedToken(AcfToken::DictStart));
                },
                Ok(Some(AcfToken::String(n))) => {
                    let ghost head = (if first {
                        Seq::empty()
                    } else {
                        seq![',']
                    }) + field_text(self.cfg, self.depth as int, n@);
                    if !first {
                        self.end_field();
                    }
                    first = false;
                    self.begin_field(n.as_str());
                    assert(self.out@ =~= out1 + head);
                    proof {
                        lemma_lex_advances(s, cur.next);
                    }
                    let ghost vl = lex(s, cur.next);
                    let v = tokens.try_next();
                    proof {
                        lemma_lex_advances(s, vl.next);
                    }
                    match v {
                        Err(e) => {
                            return Err(StreamError::Parse(e));
                        },
                        Ok(None) => {
                            return Err(StreamError::Parse(ParseError::UnexpectedEof));
                        },
                        Ok(Some(AcfToken::DictEnd)) => {
                            return Err(StreamError::UnexpectedToken(AcfToken::DictEnd));
                        },
                        Ok(Some(AcfToken::String(x))) => {
                            self.string_value(x.as_str());
                            assert(self.out@ =~= out1 + head + quoted(x@));
                        },
                        Ok(Some(AcfToken::DictStart)) => {
                            self.begin_obj();
                            first = true;
                            assert(self.out@ =~= out1 + head + seq!['{']);
                        },
                    }
                },
                _ => {
                    self.end_obj();
                    if self.depth == base_depth {
                        return Ok(());
                    }
                    first = false;
                    proof {
                        lemma_lex_advances(s, cur.next);
                    }
                },
            }
            proof {
                cur = lex(s, tokens.pos());
            }
            t = tokens.try_next();
        }
    }

    /// Separates a field from the next one.
    pub fn end_field(&mut self)
        ensures
            final(self).out@ == old(self).out@ + seq![','],
            final(self).cfg == old(self).cfg,
            final(self).depth == old(self).depth,
    {
        proof {
            reveal_strlit(",");
        }
        self.out.append(",");
    }
}

/// Renders the token stream `iter` as one JSON object, appended to `out`.
pub fn pipe_to_json(cfg: JsonWriterCfg, iter: AcfTokenStream, out: &mut String) -> (r: Result<
    (),
    StreamError,
>)
    requires
        iter.wf(),
        iter.bytes().len() + 2 <= usize::MAX,
    ensures
        ({
            let e = emit_doc(cfg, iter.bytes(), iter.pos(), 0);
            &&& final(out)@ == old(out)@ + e.out
            &&& res_view(r, |u: ()| u) == e.res
        }),
{
    let ghost e = emit_doc(cfg, iter.bytes(), iter.pos(), 0);
    let mut iter = iter;
    let mut w = JsonWriter::new(cfg, String::new());
    let r = w.write(&mut iter);
    assert(Seq::<char>::empty() + e.out =~= e.out);
    out.append(w.out.as_str());
    r
}

} // verus!
