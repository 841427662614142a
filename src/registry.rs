use vstd::prelude::*;

use crate::json::spaces;
use crate::parse::lemma_lex_advances;
use crate::stream::{
    ErrorView, NavView, Step, StreamError, StructuredAcfTokenStream, expect_next_step,
    expect_step, lemma_select_advances, lemma_skip_to_advances, next_step, path_step, res_view,
    select_step, skip_to, strs_view,
};
use crate::token::{AcfToken, TokenView};

verus! {

/// Pairs of a display name and an application identifier, in the order first seen.
pub open spec fn pairs_view(v: Seq<(String, String)>) -> Seq<(Seq<char>, Seq<char>)> {
    v.map_values(|p: (String, String)| (p.0@, p.1@))
}

/// The first index at or after `i` whose name is `name`, or -1.
pub open spec fn find_from(e: Seq<(Seq<char>, Seq<char>)>, name: Seq<char>, i: int) -> int
    decreases e.len() - i,
{
    if i < 0 || i >= e.len() {
        -1
    } else if e[i].0 == name {
        i
    } else {
        find_from(e, name, i + 1)
    }
}

/// `e` with `name` mapped to `id`: an entry already there keeps its place and takes the new
/// identifier; a new one goes last.
pub open spec fn insert_entry(e: Seq<(Seq<char>, Seq<char>)>, name: Seq<char>, id: Seq<char>) -> Seq<
    (Seq<char>, Seq<char>),
> {
    let i = find_from(e, name, 0);
    if i >= 0 {
        e.update(i, (name, id))
    } else {
        e.push((name, id))
    }
}

/// No two entries share a name.
pub open spec fn names_unique(e: Seq<(Seq<char>, Seq<char>)>) -> bool {
    forall|i: int, j: int| 0 <= i < j < e.len() ==> #[trigger] e[i].0 != #[trigger] e[j].0
}

/// Where the applications stand in the registry file.
pub open spec fn registry_path() -> Seq<Seq<char>> {
    seq!["Registry"@, "HKCU"@, "Software"@, "Valve"@, "Steam"@, "Apps"@]
}

/// The key of an application's display name.
pub open spec fn name_key() -> Seq<char> {
    "name"@
}

/// Reading application entries from `pos` on, until a token other than an identifier comes.
pub open spec fn apps_step(s: Seq<u8>, pos: int, depth: int, acc: Seq<(Seq<char>, Seq<char>)>) -> Step<
    Seq<(Seq<char>, Seq<char>)>,
>
    decreases s.len() - pos,
    when 0 <= pos <= s.len()
{
    let n = next_step(s, pos, depth);
    proof {
        lemma_lex_advances(s, pos);
    }
    match n.res {
        Err(err) => Step { res: Err(err), pos: n.pos, depth: n.depth },
        Ok(Some(TokenView::Str(id))) => {
            let e = expect_step(s, n.pos, n.depth, TokenView::DictStart);
            proof {
                lemma_lex_advances(s, n.pos);
            }
            match e.res {
                Err(err) => Step { res: Err(err), pos: e.pos, depth: e.depth },
                Ok(_) => {
                    let sel = select_step(s, e.pos, e.depth, name_key());
                    proof {
                        lemma_select_advances(s, e.pos, e.depth, name_key());
                    }
                    match sel.res {
                        Err(err) => Step { res: Err(err), pos: sel.pos, depth: sel.depth },
                        Ok(None) => apps_step(s, sel.pos, sel.depth, acc),
                        Ok(Some(_)) => {
                            let v = expect_next_step(s, sel.pos, sel.depth);
                            proof {
                                lemma_lex_advances(s, sel.pos);
                            }
                            match v.res {
                                Err(err) => Step { res: Err(err), pos: v.pos, depth: v.depth },
                                Ok(TokenView::Str(name)) => {
                                    let c = skip_to(s, v.pos, v.depth, v.depth - 1);
                                    proof {
                                        lemma_skip_to_advances(s, v.pos, v.depth, v.depth - 1);
                                    }
                                    match c.res {
                                        Err(err) => Step { res: Err(err), pos: c.pos, depth: c.depth },
                                        Ok(_) => apps_step(
                                            s,
                                            c.pos,
                                            c.depth,
                                            insert_entry(acc, name, id),
                                        ),
                                    }
                                },
                                Ok(t) => Step {
                                    res: Err(ErrorView::UnexpectedToken(t)),
                                    pos: v.pos,
                                    depth: v.depth,
                                },
                            }
                        },
                    }
                },
            }
        },
        Ok(_) => Step { res: Ok(acc), pos: n.pos, depth: n.depth },
    }
}

/// Reading the registry: select the applications' dictionary, enter it, and read its entries.
pub open spec fn registry_step(s: Seq<u8>, pos: int, depth: int) -> Step<
    Seq<(Seq<char>, Seq<char>)>,
> {
    let p = path_step(s, pos, depth, registry_path(), 0);
    match p.res {
        Err(err) => Step { res: Err(err), pos: p.pos, depth: p.depth },
        Ok(None) => Step {
            res: Err(ErrorView::PathNotFound(registry_path())),
            pos: p.pos,
            depth: p.depth,
        },
        Ok(Some(_)) => {
            let e = expect_step(s, p.pos, p.depth, TokenView::DictStart);
            match e.res {
                Err(err) => Step { res: Err(err), pos: e.pos, depth: e.depth },
                Ok(_) => apps_step(s, e.pos, e.depth, Seq::empty()),
            }
        },
    }
}

pub proof fn lemma_find_from_absent(e: Seq<(Seq<char>, Seq<char>)>, name: Seq<char>, i: int)
    requires
        0 <= i,
    ensures
        find_from(e, name, i) < 0 ==> forall|k: int| i <= k < e.len() ==> #[trigger] e[k].0 != name,
        find_from(e, name, i) >= 0 ==> i <= find_from(e, name, i) < e.len() && e[find_from(
            e,
            name,
            i,
        )].0 == name,
    decreases e.len() - i,
{
    if i < e.len() && e[i].0 != name {
        lemma_find_from_absent(e, name, i + 1);
    }
}

/// Inserting keeps the names unique.
pub proof fn lemma_insert_keeps_unique(
    e: Seq<(Seq<char>, Seq<char>)>,
    name: Seq<char>,
    id: Seq<char>,
)
    requires
        names_unique(e),
    ensures
        names_unique(insert_entry(e, name, id)),
{
    lemma_find_from_absent(e, name, 0);
    let r = insert_entry(e, name, id);
    assert forall|i: int, j: int| 0 <= i < j < r.len() implies #[trigger] r[i].0 != #[trigger] r[j].0 by {
        if find_from(e, name, 0) < 0 {
            if j == e.len() {
                assert(e[i].0 != name);
            } else {
                assert(e[i].0 != e[j].0);
            }
        } else {
            assert(e[i].0 != e[j].0);
        }
    }
}

/// The longest display name, in characters.
pub open spec fn max_name_len(e: Seq<(Seq<char>, Seq<char>)>) -> nat
    decreases e.len(),
{
    if e.len() == 0 {
        0
    } else {
        let m = max_name_len(e.drop_last());
        if e.last().0.len() > m {
            e.last().0.len()
        } else {
            m
        }
    }
}

/// One line of the listing: the name, padded to `width` plus two spaces, then the identifier.
pub open spec fn listing_line(name: Seq<char>, id: Seq<char>, width: nat) -> Seq<char> {
    name + spaces((2 + width - name.len()) as nat) + id + seq!['\n']
}

/// The lines of all entries, in order.
pub open spec fn listing(e: Seq<(Seq<char>, Seq<char>)>, width: nat) -> Seq<char>
    decreases e.len(),
{
    if e.len() == 0 {
        Seq::empty()
    } else {
        listing(e.drop_last(), width) + listing_line(e.last().0, e.last().1, width)
    }
}

pub proof fn lemma_max_name_len(e: Seq<(Seq<char>, Seq<char>)>, i: int)
    requires
        0 <= i < e.len(),
    ensures
        e[i].0.len() <= max_name_len(e),
    decreases e.len(),
{
    if i < e.len() - 1 {
        lemma_max_name_len(e.drop_last(), i);
    }
}

/// Display names of applications, each with its identifier.
pub struct SteamRegistry {
    entries: Vec<(String, String)>,
}

impl View for SteamRegistry {
    type V = Seq<(Seq<char>, Seq<char>)>;

    closed spec fn view(&self) -> Seq<(Seq<char>, Seq<char>)> {
        pairs_view(self.entries@)
    }
}

impl SteamRegistry {
    pub fn new() -> (r: Self)
        ensures
            r@ == Seq::<(Seq<char>, Seq<char>)>::empty(),
            names_unique(r@),
    {
        let r = SteamRegistry { entries: Vec::new() };
        assert(r@ =~= Seq::<(Seq<char>, Seq<char>)>::empty());
        r
    }

    /// The entries, as (display name, identifier) pairs.
    pub fn entries(&self) -> (r: &[(String, String)])
        ensures
            pairs_view(r@) == self@,
    {
        self.entries.as_slice()
    }

    /// Maps `name` to `id`, replacing the identifier that `name` had.
    pub fn insert(&mut self, name: String, id: String)
        ensures
            final(self)@ == insert_entry(old(self)@, name@, id@),
            names_unique(old(self)@) ==> names_unique(final(self)@),
    {
        proof {
            if names_unique(self@) {
                lemma_insert_keeps_unique(self@, name@, id@);
            }
        }
        let ghost e = self@;
        let mut i: usize = 0;
        while i < self.entries.len()
            invariant
                e == old(self)@,
                self@ == e,
                self.entries@.len() == e.len(),
                i <= e.len(),
                find_from(e, name@, i as int) == find_from(e, name@, 0),
            decreases e.len() - i,
        {
            assert(self.entries@[i as int].0@ == e[i as int].0);
            if self.entries[i].0.eq(&name) {
                self.entries.set(i, (name, id));
                assert(self@ =~= e.update(i as int, (name@, id@)));
                return;
            }
            i = i + 1;
        }
        self.entries.push((name, id));
        assert(self@ =~= e.push((name@, id@)));
    }
}

/// The registry as text: one line per entry, names padded to a common column.
pub fn format_listing(reg: &SteamRegistry) -> (r: String)
    ensures
        r@ == listing(reg@, max_name_len(reg@)),
{
    let entries = reg.entries();
    let ghost e = reg@;
    let mut width: usize = 0;
    let mut i: usize = 0;
    while i < entries.len()
        invariant
            pairs_view(entries@) == e,
            i <= e.len(),
            width == max_name_len(e.take(i as int)),
        decreases e.len() - i,
    {
        let n = entries[i].0.as_str().unicode_len();
        assert(e.take(i + 1).drop_last() =~= e.take(i as int));
        if n > width {
            width = n;
        }
        i = i + 1;
    }
    assert(e.take(e.len() as int) =~= e);
    let mut out = String::new();
    let mut i: usize = 0;
    while i < entries.len()
        invariant
            pairs_view(entries@) == e,
            i <= e.len(),
            width == max_name_len(e),
            out@ == listing(e.take(i as int), width as nat),
        decreases e.len() - i,
    {
        proof {
            lemma_max_name_len(e, i as int);
            reveal_strlit("  ");
            reveal_strlit(" ");
            reveal_strlit("\n");
        }
        let name = entries[i].0.as_str();
        let id = entries[i].1.as_str();
        let ghost line_start = out@;
        let n = name.unicode_len();
        out.append(name);
        out.append("  ");
        let mut k: usize = 0;
        while k < width - n
            invariant
                k <= width - n,
                n == name@.len(),
                out@ == line_start + name@ + spaces((2 + k) as nat),
            decreases width - n - k,
        {
            let ghost before = out@;
            proof {
                reveal_strlit(" ");
            }
            out.append(" ");
            assert(spaces((2 + k + 1) as nat) =~= spaces((2 + k) as nat).push(' '));
            assert(out@ =~= line_start + name@ + spaces((2 + k + 1) as nat));
            k = k + 1;
        }
        out.append(id);
        out.append("\n");
        assert(e.take(i + 1).drop_last() =~= e.take(i as int));
        assert(out@ =~= listing(e.take(i as int), width as nat) + listing_line(
            e[i as int].0,
            e[i as int].1,
            width as nat,
        ));
        i = i + 1;
    }
    assert(e.take(e.len() as int) =~= e);
    out
}

/// Reads the registry file's applications: from `tokens`, selects the applications'
/// dictionary, then for each application reads its identifier and the value of its `name`
/// field, if it has one.
pub fn load_registry(tokens: &mut StructuredAcfTokenStream) -> (r: Result<
    SteamRegistry,
    StreamError,
>)
    requires
        old(tokens).wf(),
    ensures
        final(tokens).wf(),
        ({
            let c = registry_step(old(tokens)@.input, old(tokens)@.pos, old(tokens)@.depth);
            &&& res_view(r, |g: SteamRegistry| g@) == c.res
            &&& final(tokens)@ == (NavView { input: old(tokens)@.input, pos: c.pos, depth: c.depth })
        }),
{
    let path: Vec<&str> = vec!["Registry", "HKCU", "Software", "Valve", "Steam", "Apps"];
    proof {
        reveal_strlit("Registry");
        reveal_strlit("HKCU");
        reveal_strlit("Software");
        reveal_strlit("Valve");
        reveal_strlit("Steam");
        reveal_strlit("Apps");
        reveal_strlit("name");
    }
    assert(strs_view(path@) =~= registry_path());
    let p = tokens.select_path(path.as_slice());
    if let Err(e) = p {
        return Err(e);
    }
    let e = tokens.expect(AcfToken::DictStart);
    if let Err(e) = e {
        return Err(e);
    }
    let ghost s = tokens@.input;
    let mut reg = SteamRegistry::new();
    loop
        invariant
            tokens.wf(),
            tokens@.input == s,
            s == old(tokens)@.input,
            apps_step(s, tokens@.pos, tokens@.depth, reg@) == registry_step(
                old(tokens)@.input,
                old(tokens)@.pos,
                old(tokens)@.depth,
            ),
        decreases s.len() - tokens@.pos,
    {
        proof {
            tokens.lemma_wf();
            lemma_lex_advances(s, tokens@.pos);
        }
        let t = tokens.try_next();
        let id = match t {
            Err(e) => {
                return Err(e);
            },
            Ok(Some(AcfToken::String(id))) => id,
            Ok(_) => {
                return Ok(reg);
            },
        };
        proof {
            tokens.lemma_wf();
            lemma_lex_advances(s, tokens@.pos);
        }
        let e = tokens.expect(AcfToken::DictStart);
        if let Err(e) = e {
            return Err(e);
        }
        proof {
            tokens.lemma_wf();
            lemma_select_advances(s, tokens@.pos, tokens@.depth, name_key());
        }
        let found = tokens.select("name");
        match found {
            Err(e) => {
                return Err(e);
            },
            Ok(None) => {},
            Ok(Some(_)) => {
                proof {
                    tokens.lemma_wf();
                    lemma_lex_advances(s, tokens@.pos);
                }
                let v = tokens.expect_next();
                match v {
                    Err(e) => {
                        return Err(e);
                    },
                    Ok(AcfToken::String(name)) => {
                        proof {
                            tokens.lemma_wf();
                            lemma_skip_to_advances(s, tokens@.pos, tokens@.depth, tokens@.depth - 1);
                        }
                        reg.insert(name, id);
                        let c = tokens.close_dict();
                        if let Err(e) = c {
                            return Err(e);
                        }
                    },
                    Ok(t) => {
                        return Err(StreamError::UnexpectedToken(t));
                    },
                }
            },
        }
    }
}

} // verus!
