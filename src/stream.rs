use vstd::prelude::*;

use crate::parse::{AcfTokenStream, LexTok, lex, lemma_lex_advances};
use crate::token::{AcfToken, ParseError, TokenView};

verus! {

/// An error of the navigator.
#[derive(Debug)]
pub enum StreamError {
    /// The input broke the lexical format.
    Parse(ParseError),
    /// A token did not match what the structure required here.
    UnexpectedToken(AcfToken),
    /// A path selection ended at some level without finding its key.
    PathNotFound(Vec<String>),
}

/// The mathematical value of a `StreamError`.
pub enum ErrorView {
    Parse(ParseError),
    UnexpectedToken(TokenView),
    PathNotFound(Seq<Seq<char>>),
}

/// The characters of each string.
pub open spec fn strings_view(v: Seq<String>) -> Seq<Seq<char>> {
    v.map_values(|x: String| x@)
}

/// The characters of each string slice.
pub open spec fn strs_view(v: Seq<&str>) -> Seq<Seq<char>> {
    v.map_values(|x: &str| x@)
}

impl View for StreamError {
    type V = ErrorView;

    open spec fn view(&self) -> ErrorView {
        match self {
            StreamError::Parse(e) => ErrorView::Parse(*e),
            StreamError::UnexpectedToken(t) => ErrorView::UnexpectedToken(t@),
            StreamError::PathNotFound(p) => ErrorView::PathNotFound(strings_view(p@)),
        }
    }
}

/// The value of a result, with the error seen through its view.
pub open spec fn res_view<T, U>(r: Result<T, StreamError>, f: spec_fn(T) -> U) -> Result<
    U,
    ErrorView,
> {
    match r {
        Ok(x) => Ok(f(x)),
        Err(e) => Err(e@),
    }
}

/// The view of an optional token.
pub open spec fn opt_token_view(t: Option<AcfToken>) -> Option<TokenView> {
    match t {
        Some(t) => Some(t@),
        None => None,
    }
}

/// The navigator's state as a mathematical value.
pub struct NavView {
    pub input: Seq<u8>,
    pub pos: int,
    pub depth: int,
}

/// The outcome of a navigation step: its result, and the cursor and depth after it.
pub struct Step<T> {
    pub res: Result<T, ErrorView>,
    pub pos: int,
    pub depth: int,
}

/// The depth after passing over a token.
pub open spec fn depth_after(depth: int, t: TokenView) -> int {
    match t {
        TokenView::DictStart => depth + 1,
        TokenView::DictEnd => depth - 1,
        TokenView::Str(_) => depth,
    }
}

/// Reading one token, with the depth kept up to date.
pub open spec fn next_step(s: Seq<u8>, pos: int, depth: int) -> Step<Option<TokenView>> {
    let l = lex(s, pos);
    match l.tok {
        LexTok::Token(t) => Step { res: Ok(Some(t)), pos: l.next, depth: depth_after(depth, t) },
        LexTok::End => Step { res: Ok(None), pos: l.next, depth },
        LexTok::Fail(e) => Step { res: Err(ErrorView::Parse(e)), pos: l.next, depth },
    }
}

/// Reading one token that must be there.
pub open spec fn expect_next_step(s: Seq<u8>, pos: int, depth: int) -> Step<TokenView> {
    let n = next_step(s, pos, depth);
    match n.res {
        Ok(Some(t)) => Step { res: Ok(t), pos: n.pos, depth: n.depth },
        Ok(None) => Step {
            res: Err(ErrorView::Parse(ParseError::UnexpectedEof)),
            pos: n.pos,
            depth: n.depth,
        },
        Err(e) => Step { res: Err(e), pos: n.pos, depth: n.depth },
    }
}

/// Reading one token that must be `want`.
pub open spec fn expect_step(s: Seq<u8>, pos: int, depth: int, want: TokenView) -> Step<()> {
    let n = expect_next_step(s, pos, depth);
    match n.res {
        Ok(t) => if t == want {
            Step { res: Ok(()), pos: n.pos, depth: n.depth }
        } else {
            Step { res: Err(ErrorView::UnexpectedToken(t)), pos: n.pos, depth: n.depth }
        },
        Err(e) => Step { res: Err(e), pos: n.pos, depth: n.depth },
    }
}

/// Consuming tokens while the depth is above `target`.
pub open spec fn skip_to(s: Seq<u8>, pos: int, depth: int, target: int) -> Step<()>
    decreases s.len() - pos,
    when 0 <= pos <= s.len()
{
    if depth <= target {
        Step { res: Ok(()), pos, depth }
    } else {
        let n = expect_next_step(s, pos, depth);
        proof {
            lemma_lex_advances(s, pos);
        }
        match n.res {
            Ok(_) => skip_to(s, n.pos, n.depth, target),
            Err(e) => Step { res: Err(e), pos: n.pos, depth: n.depth },
        }
    }
}

/// Scanning the current level for a string token equal to `key`, skipping nested dictionaries.
pub open spec fn select_step(s: Seq<u8>, pos: int, depth: int, key: Seq<char>) -> Step<Option<()>>
    decreases s.len() - pos,
    when 0 <= pos <= s.len()
{
    let n = next_step(s, pos, depth);
    proof {
        lemma_lex_advances(s, pos);
    }
    match n.res {
        Err(e) => Step { res: Err(e), pos: n.pos, depth: n.depth },
        Ok(None) => Step { res: Ok(None), pos: n.pos, depth: n.depth },
        Ok(Some(TokenView::DictEnd)) => Step { res: Ok(None), pos: n.pos, depth: n.depth },
        Ok(Some(TokenView::Str(f))) => if f == key {
            Step { res: Ok(Some(())), pos: n.pos, depth: n.depth }
        } else {
            select_step(s, n.pos, n.depth, key)
        },
        Ok(Some(TokenView::DictStart)) => {
            let c = skip_to(s, n.pos, n.depth, n.depth - 1);
            proof {
                lemma_skip_to_advances(s, n.pos, n.depth, n.depth - 1);
            }
            match c.res {
                Ok(_) => select_step(s, c.pos, c.depth, key),
                Err(e) => Step { res: Err(e), pos: c.pos, depth: c.depth },
            }
        },
    }
}

/// Selecting the keys of `path` from index `i` on, each one level below the one before.
pub open spec fn path_step(
    s: Seq<u8>,
    pos: int,
    depth: int,
    path: Seq<Seq<char>>,
    i: int,
) -> Step<Option<()>>
    decreases path.len() - i,
{
    if i >= path.len() {
        Step { res: Ok(Some(())), pos, depth }
    } else {
        let e = if i == 0 {
            Step { res: Ok(()), pos, depth }
        } else {
            expect_step(s, pos, depth, TokenView::DictStart)
        };
        match e.res {
            Err(err) => Step { res: Err(err), pos: e.pos, depth: e.depth },
            Ok(_) => {
                let sel = select_step(s, e.pos, e.depth, path[i]);
                match sel.res {
                    Ok(Some(_)) => path_step(s, sel.pos, sel.depth, path, i + 1),
                    _ => sel,
                }
            },
        }
    }
}

/// A skip never moves the cursor back nor past the end.
pub proof fn lemma_skip_to_advances(s: Seq<u8>, pos: int, depth: int, target: int)
    requires
        0 <= pos <= s.len(),
    ensures
        pos <= skip_to(s, pos, depth, target).pos <= s.len(),
    decreases s.len() - pos,
{
    if depth > target {
        lemma_lex_advances(s, pos);
        let n = expect_next_step(s, pos, depth);
        if n.res is Ok {
            lemma_skip_to_advances(s, n.pos, n.depth, target);
        }
    }
}

/// A selection never moves the cursor back nor past the end.
pub proof fn lemma_select_advances(s: Seq<u8>, pos: int, depth: int, key: Seq<char>)
    requires
        0 <= pos <= s.len(),
    ensures
        pos <= select_step(s, pos, depth, key).pos <= s.len(),
    decreases s.len() - pos,
{
    lemma_lex_advances(s, pos);
    let n = next_step(s, pos, depth);
    if n.res == Ok::<Option<TokenView>, ErrorView>(Some(TokenView::DictStart)) {
        lemma_skip_to_advances(s, n.pos, n.depth, n.depth - 1);
        let c = skip_to(s, n.pos, n.depth, n.depth - 1);
        if c.res is Ok {
            lemma_select_advances(s, c.pos, c.depth, key);
        }
    } else if n.res is Ok && n.res->Ok_0 is Some && n.res->Ok_0->Some_0 is Str {
        lemma_select_advances(s, n.pos, n.depth, key);
    }
}

/// A path written as `.key` for each of its keys.
pub open spec fn path_text(items: Seq<Seq<char>>) -> Seq<char>
    decreases items.len(),
{
    if items.len() == 0 {
        Seq::empty()
    } else {
        path_text(items.drop_last()) + seq!['.'] + items.last()
    }
}

/// Writes a path as `.key` for each of its keys, as a `PathNotFound` error shows it.
pub fn format_path(items: &[String]) -> (r: String)
    ensures
        r@ == path_text(strings_view(items@)),
{
    let ghost v = strings_view(items@);
    let mut s = String::new();
    let mut i: usize = 0;
    while i < items.len()
        invariant
            v == strings_view(items@),
            i <= items@.len(),
            s@ == path_text(v.take(i as int)),
        decreases items@.len() - i,
    {
        proof {
            reveal_strlit(".");
        }
        s.append(".");
        s.append(items[i].as_str());
        assert(v.take(i + 1).drop_last() =~= v.take(i as int));
        assert(s@ =~= path_text(v.take(i + 1)));
        i = i + 1;
    }
    assert(v.take(items@.len() as int) =~= v);
    s
}

/// The navigator: tracks the nesting depth over the tokenizer and moves between fields.
pub struct StructuredAcfTokenStream {
    read: AcfTokenStream,
    depth: i64,
}

impl View for StructuredAcfTokenStream {
    type V = NavView;

    closed spec fn view(&self) -> NavView {
        NavView { input: self.read.bytes(), pos: self.read.pos(), depth: self.depth as int }
    }
}

impl StructuredAcfTokenStream {
    pub closed spec fn wf(&self) -> bool {
        &&& self.read.wf()
        &&& self.read.bytes().len() <= i64::MAX
        &&& -self.read.pos() <= self.depth <= self.read.pos()
    }

    pub proof fn lemma_wf(&self)
        requires
            self.wf(),
        ensures
            0 <= self@.pos <= self@.input.len() <= i64::MAX,
            -self@.pos <= self@.depth <= self@.pos,
    {
        self.read.lemma_wf();
    }

    /// Wraps a tokenizer; the depth starts at zero.
    pub fn new(read: AcfTokenStream) -> (r: Self)
        requires
            read.wf(),
            read.bytes().len() <= i64::MAX,
        ensures
            r.wf(),
            r@ == (NavView { input: read.bytes(), pos: read.pos(), depth: 0 }),
    {
        proof {
            read.lemma_wf();
        }
        StructuredAcfTokenStream { read, depth: 0 }
    }

    pub fn depth(&self) -> (r: i64)
        ensures
            r == self@.depth,
    {
        self.depth
    }

    /// Reads one token and updates the depth; `None` at the end of input.
    pub fn try_next(&mut self) -> (r: Result<Option<AcfToken>, StreamError>)
        requires
            old(self).wf(),
        ensures
            final(self).wf(),
            ({
                let n = next_step(old(self)@.input, old(self)@.pos, old(self)@.depth);
                &&& res_view(r, |t: Option<AcfToken>| opt_token_view(t)) == n.res
                &&& final(self)@ == (NavView { input: old(self)@.input, pos: n.pos, depth: n.depth })
            }),
    {
        proof {
            self.lemma_wf();
            lemma_lex_advances(self.read.bytes(), self.read.pos());
        }
        let t = self.read.try_next();
        match t {
            Err(e) => Err(StreamError::Parse(e)),
            Ok(t) => {
                match &t {
                    Some(AcfToken::DictStart) => {
                        self.depth = self.depth + 1;
                    },
                    Some(AcfToken::DictEnd) => {
                        self.depth = self.depth - 1;
                    },
                    _ => {},
                }
                Ok(t)
            },
        }
    }

    /// Reads one token; the end of input is an error here.
    pub fn expect_next(&mut self) -> (r: Result<AcfToken, StreamError>)
        requires
            old(self).wf(),
        ensures
            final(self).wf(),
            ({
                let n = expect_next_step(old(self)@.input, old(self)@.pos, old(self)@.depth);
                &&& res_view(r, |t: AcfToken| t@) == n.res
                &&& final(self)@ == (NavView { input: old(self)@.input, pos: n.pos, depth: n.depth })
            }),
    {
        let t = self.try_next();
        match t {
            Ok(Some(t)) => Ok(t),
            Ok(None) => Err(StreamError::Parse(ParseError::UnexpectedEof)),
            Err(e) => Err(e),
        }
    }

    /// Reads one token, which must equal `token`.
    pub fn expect(&mut self, token: AcfToken) -> (r: Result<(), StreamError>)
        requires
            old(self).wf(),
        ensures
            final(self).wf(),
            ({
                let n = expect_step(old(self)@.input, old(self)@.pos, old(self)@.depth, token@);
                &&& res_view(r, |u: ()| u) == n.res
                &&& final(self)@ == (NavView { input: old(self)@.input, pos: n.pos, depth: n.depth })
            }),
    {
        let t = self.expect_next()?;
        if t == token {
            Ok(())
        } else {
            Err(StreamError::UnexpectedToken(t))
        }
    }

    /// Consumes tokens until the dictionary entered last is closed, nested ones included.
    pub fn close_dict(&mut self) -> (r: Result<(), StreamError>)
        requires
            old(self).wf(),
        ensures
            final(self).wf(),
            ({
                let c = skip_to(
                    old(self)@.input,
                    old(self)@.pos,
                    old(self)@.depth,
                    old(self)@.depth - 1,
                );
                &&& res_view(r, |u: ()| u) == c.res
                &&& final(self)@ == (NavView { input: old(self)@.input, pos: c.pos, depth: c.depth })
            }),
            r is Ok ==> final(self)@.depth == old(self)@.depth - 1,
    {
        proof {
            self.lemma_wf();
            lemma_close_restores_depth(self@.input, self@.pos, self@.depth);
        }
        self.skip_to_depth(self.depth - 1)
    }

    /// Scans the current level for a string token equal to `target`, skipping nested
    /// dictionaries whole; `None` when the level (or the input) ends first.
    pub fn select(&mut self, target: &str) -> (r: Result<Option<()>, StreamError>)
        requires
            old(self).wf(),
        ensures
            final(self).wf(),
            ({
                let c = select_step(old(self)@.input, old(self)@.pos, old(self)@.depth, target@);
                &&& res_view(r, |u: Option<()>| u) == c.res
                &&& final(self)@ == (NavView { input: old(self)@.input, pos: c.pos, depth: c.depth })
            }),
    {
        let key = target.to_owned();
        let ghost s = self@.input;
        let ghost total = select_step(s, self@.pos, self@.depth, key@);
        proof {
            self.lemma_wf();
        }
        loop
            invariant
                self.wf(),
                self@.input == s,
                s == old(self)@.input,
                key@ == target@,
                total == select_step(old(self)@.input, old(self)@.pos, old(self)@.depth, target@),
                select_step(s, self@.pos, self@.depth, key@) == total,
            decreases s.len() - self@.pos,
        {
            proof {
                self.lemma_wf();
                lemma_lex_advances(s, self@.pos);
            }
            let t = self.try_next();
            match t {
                Err(e) => {
                    return Err(e);
                },
                Ok(None) => {
                    return Ok(None);
                },
                Ok(Some(AcfToken::String(field))) => {
                    if field == key {
                        return Ok(Some(()));
                    }
                },
                Ok(Some(AcfToken::DictEnd)) => {
                    return Ok(None);
                },
                Ok(Some(AcfToken::DictStart)) => {
                    proof {
                        self.lemma_wf();
                        lemma_skip_to_advances(s, self@.pos, self@.depth, self@.depth - 1);
                    }
                    let c = self.close_dict();
                    if let Err(e) = c {
                        return Err(e);
                    }
                },
            }
        }
    }

    /// Selects each key of `path` in turn, entering the dictionary that is the value of
    /// each key before looking for the next; `None` as soon as one is missing.
    pub fn try_select_path(&mut self, path: &[&str]) -> (r: Result<Option<()>, StreamError>)
        requires
            old(self).wf(),
        ensures
            final(self).wf(),
            ({
                let c = path_step(
                    old(self)@.input,
                    old(self)@.pos,
                    old(self)@.depth,
                    strs_view(path@),
                    0,
                );
                &&& res_view(r, |u: Option<()>| u) == c.res
                &&& final(self)@ == (NavView { input: old(self)@.input, pos: c.pos, depth: c.depth })
            }),
            path@.len() == 0 ==> r is Ok && r->Ok_0 is Some && final(self)@ == old(self)@,
    {
        let ghost s = self@.input;
        let ghost pv = strs_view(path@);
        let ghost total = path_step(s, self@.pos, self@.depth, pv, 0);
        let mut not_first = false;
        let mut i: usize = 0;
        while i < path.len()
            invariant
                self.wf(),
                self@.input == s,
                s == old(self)@.input,
                pv == strs_view(path@),
                total == path_step(old(self)@.input, old(self)@.pos, old(self)@.depth, pv, 0),
                i <= path@.len(),
                not_first == (i > 0),
                path_step(s, self@.pos, self@.depth, pv, i as int) == total,
            decreases path@.len() - i,
        {
            if not_first {
                let e = self.expect(AcfToken::DictStart);
                if let Err(e) = e {
                    return Err(e);
                }
            } else {
                not_first = true;
            }
            let found = self.select(path[i]);
            match found {
                Err(e) => {
                    return Err(e);
                },
                Ok(None) => {
                    return Ok(None);
                },
                Ok(Some(_)) => {},
            }
            i = i + 1;
        }
        Ok(Some(()))
    }

    /// Like `try_select_path`, with a missing key reported as `PathNotFound` of the whole path.
    pub fn select_path(&mut self, path: &[&str]) -> (r: Result<(), StreamError>)
        requires
            old(self).wf(),
        ensures
            final(self).wf(),
            ({
                let c = path_step(
                    old(self)@.input,
                    old(self)@.pos,
                    old(self)@.depth,
                    strs_view(path@),
                    0,
                );
                &&& res_view(r, |u: ()| u) == match c.res {
                    Ok(Some(_)) => Ok(()),
                    Ok(None) => Err(ErrorView::PathNotFound(strs_view(path@))),
                    Err(e) => Err(e),
                }
                &&& final(self)@ == (NavView { input: old(self)@.input, pos: c.pos, depth: c.depth })
            }),
            path@.len() == 0 ==> r is Ok && final(self)@ == old(self)@,
    {
        let r = self.try_select_path(path);
        match r {
            Err(e) => Err(e),
            Ok(Some(_)) => Ok(()),
            Ok(None) => {
                let mut owned: Vec<String> = Vec::new();
                let mut i: usize = 0;
                while i < path.len()
                    invariant
                        i <= path@.len(),
                        strings_view(owned@) == strs_view(path@).take(i as int),
                    decreases path@.len() - i,
                {
                    let ghost before = owned@;
                    let p = path[i].to_owned();
                    owned.push(p);
                    assert(strings_view(owned@) =~= strings_view(before).push(p@));
                    assert(strs_view(path@).take(i + 1) =~= strs_view(path@).take(i as int).push(
                        path@[i as int]@,
                    ));
                    i = i + 1;
                }
                assert(strs_view(path@).take(path@.len() as int) =~= strs_view(path@));
                Err(StreamError::PathNotFound(owned))
            },
        }
    }

    fn skip_to_depth(&mut self, target_depth: i64) -> (r: Result<(), StreamError>)
        requires
            old(self).wf(),
        ensures
            final(self).wf(),
            ({
                let c = skip_to(old(self)@.input, old(self)@.pos, old(self)@.depth, target_depth as int);
                &&& res_view(r, |u: ()| u) == c.res
                &&& final(self)@ == (NavView { input: old(self)@.input, pos: c.pos, depth: c.depth })
            }),
    {
        let ghost s = self@.input;
        let ghost total = skip_to(s, self@.pos, self@.depth, target_depth as int);
        proof {
            self.lemma_wf();
        }
        while self.depth > target_depth
            invariant
                self.wf(),
                self@.input == s,
                s == old(self)@.input,
                total == skip_to(old(self)@.input, old(self)@.pos, old(self)@.depth, target_depth as int),
                skip_to(s, self@.pos, self@.depth, target_depth as int) == total,
            decreases s.len() - self@.pos,
        {
            proof {
                self.lemma_wf();
                lemma_lex_advances(s, self@.pos);
            }
            let t = self.expect_next();
            if let Err(e) = t {
                return Err(e);
            }
        }
        proof {
            self.lemma_wf();
        }
        Ok(())
    }
}

/// Closing a dictionary brings the depth back to exactly one less than it was, at every depth.
pub proof fn lemma_close_restores_depth(s: Seq<u8>, pos: int, depth: int)
    requires
        0 <= pos <= s.len(),
    ensures
        skip_to(s, pos, depth, depth - 1).res is Ok ==> skip_to(s, pos, depth, depth - 1).depth
            == depth - 1,
{
    lemma_skip_reaches_target(s, pos, depth, depth - 1);
}

/// Selecting at the current level leaves the depth where it was when the key is found, and
/// one less when the level closes first (the same when the input ends first): every nested
/// dictionary met on the way is skipped whole, bringing the depth back to its value before it.
pub proof fn lemma_select_depth(s: Seq<u8>, pos: int, depth: int, key: Seq<char>)
    requires
        0 <= pos <= s.len(),
    ensures
        ({
            let c = select_step(s, pos, depth, key);
            &&& c.res == Ok::<Option<()>, ErrorView>(Some(())) ==> c.depth == depth
            &&& c.res == Ok::<Option<()>, ErrorView>(None) ==> c.depth == depth - 1 || (c.depth
                == depth && c.pos == s.len())
        }),
    decreases s.len() - pos,
{
    lemma_lex_advances(s, pos);
    let n = next_step(s, pos, depth);
    if n.res == Ok::<Option<TokenView>, ErrorView>(Some(TokenView::DictStart)) {
        lemma_skip_reaches_target(s, n.pos, n.depth, n.depth - 1);
        lemma_skip_to_advances(s, n.pos, n.depth, n.depth - 1);
        let c = skip_to(s, n.pos, n.depth, n.depth - 1);
        if c.res is Ok {
            lemma_select_depth(s, c.pos, c.depth, key);
        }
    } else if n.res is Ok && n.res->Ok_0 is Some && n.res->Ok_0->Some_0 is Str {
        lemma_select_depth(s, n.pos, n.depth, key);
    }
}

/// A skip that succeeds from at or above the target stops exactly at the target.
pub proof fn lemma_skip_reaches_target(s: Seq<u8>, pos: int, depth: int, target: int)
    requires
        0 <= pos <= s.len(),
        target <= depth,
    ensures
        skip_to(s, pos, depth, target).res is Ok ==> skip_to(s, pos, depth, target).depth == target,
    decreases s.len() - pos,
{
    if depth > target {
        lemma_lex_advances(s, pos);
        let n = expect_next_step(s, pos, depth);
        if n.res is Ok {
            lemma_skip_reaches_target(s, n.pos, n.depth, target);
        }
    }
}

} // verus!
