use vstd::prelude::*;
use crate::urllib::find_sub;
use crate::urllib::first_index;

verus! {

// ─── Plain replacement ───────────────────────────────────────────────────────

/// `s` with every occurrence of `p` (not empty), from left to right and not
/// overlapping, replaced by `r`.
pub open spec fn spec_gsub(s: Seq<u8>, p: Seq<u8>, r: Seq<u8>) -> Seq<u8>
    decreases s.len(),
{
    if p.len() == 0 {
        s
    } else {
        match find_sub(s, p, 0) {
            Some(i) => {
                proof {
                    crate::urllib::lemma_find_sub(s, p, 0);
                }
                s.take(i) + r + spec_gsub(s.skip(i + p.len()), p, r)
            },
            None => s,
        }
    }
}

/// Replaces every occurrence of `p` in `s` by `r`, as `luaL_gsub` does.
pub fn gsub(s: &[u8], p: &[u8], r: &[u8]) -> (out: Vec<u8>)
    requires
        p@.len() > 0,
    ensures
        out@ == spec_gsub(s@, p@, r@),
    decreases s@.len(),
{
    match crate::urllib::find_bytes(s, p) {
        Some(i) => {
            let n = s.len();
            let mut out = vstd::slice::slice_to_vec(&s[0..i]);
            crate::toml_writer::append(&mut out, r);
            let rest = gsub(&s[i + p.len()..n], p, r);
            crate::toml_writer::append(&mut out, rest.as_slice());
            proof {
                assert(s@.subrange(0, i as int) =~= s@.take(i as int));
                assert(s@.subrange(i + p@.len(), n as int) =~= s@.skip(i + p@.len()));
                assert(out@ =~= spec_gsub(s@, p@, r@));
            }
            out
        },
        None => vstd::slice::slice_to_vec(s),
    }
}

// ─── package.path and package.cpath ──────────────────────────────────────────

/// The value of a search path: the default when no environment variable
/// gives one (or the environment is to be ignored); else the variable's
/// value, with `;;` (its first occurrence) standing for the default.
pub open spec fn spec_path_value(env: Option<Seq<u8>>, noenv: bool, dft: Seq<u8>) -> Seq<u8> {
    match env {
        None => dft,
        Some(path) => if noenv {
            dft
        } else {
            match find_sub(path, seq![59u8, 59u8], 0) {
                None => path,
                Some(m) => (if m > 0 {
                    path.take(m) + seq![59u8]
                } else {
                    Seq::empty()
                }) + dft + (if m < path.len() - 2 {
                    seq![59u8] + path.skip(m + 2)
                } else {
                    Seq::empty()
                }),
            }
        },
    }
}

/// Computes a search path from the environment's value (see
/// `spec_path_value`).
pub fn path_value(env: Option<&[u8]>, noenv: bool, dft: &[u8]) -> (r: Vec<u8>)
    ensures
        r@ == spec_path_value(
            match env {
                Some(e) => Some(e@),
                None => None,
            },
            noenv,
            dft@,
        ),
{
    match env {
        None => vstd::slice::slice_to_vec(dft),
        Some(path) => {
            if noenv {
                return vstd::slice::slice_to_vec(dft);
            }
            let semis: [u8; 2] = [59u8, 59u8];
            proof {
                assert(semis@ =~= seq![59u8, 59u8]);
            }
            match crate::urllib::find_bytes(path, &semis) {
                None => vstd::slice::slice_to_vec(path),
                Some(m) => {
                    let n = path.len();
                    let mut out: Vec<u8> = Vec::new();
                    if m > 0 {
                        crate::toml_writer::append(&mut out, &path[0..m]);
                        out.push(59u8);
                    }
                    crate::toml_writer::append(&mut out, dft);
                    if m < n - 2 {
                        out.push(59u8);
                        crate::toml_writer::append(&mut out, &path[m + 2..n]);
                    }
                    proof {
                        assert(path@.subrange(0, m as int) =~= path@.take(m as int));
                        assert(path@.subrange(m + 2, n as int) =~= path@.skip(m + 2));
                        assert(out@ =~= spec_path_value(Some(path@), noenv, dft@));
                    }
                    out
                },
            }
        },
    }
}

// ─── package.searchpath ──────────────────────────────────────────────────────

/// The pieces of `s` between the `;` separators (an empty `s` has none).
pub open spec fn split_semis(s: Seq<u8>) -> Seq<Seq<u8>>
    decreases s.len(),
{
    match first_index(s, 59u8, 0) {
        Some(i) => {
            proof {
                crate::urllib::lemma_first_index(s, 59u8, 0);
            }
            seq![s.take(i)] + split_semis(s.skip(i + 1))
        },
        None => if s.len() == 0 {
            Seq::empty()
        } else {
            seq![s]
        },
    }
}

/// The template after its `?` marks are replaced by the name (with each
/// occurrence of `sep` in it replaced by `dirsep`, when `sep` is not empty
/// and its first byte occurs in the name).
pub open spec fn spec_search_template(name: Seq<u8>, path: Seq<u8>, sep: Seq<u8>, dirsep: Seq<u8>) -> Seq<u8> {
    let name2 = if sep.len() > 0 && name.contains(sep[0]) {
        spec_gsub(name, sep, dirsep)
    } else {
        name
    };
    spec_gsub(path, seq![63u8], name2)
}

/// The file names that `package.searchpath` tries, in order: the pieces of
/// the template between `;`.
pub open spec fn spec_search_names(name: Seq<u8>, path: Seq<u8>, sep: Seq<u8>, dirsep: Seq<u8>) -> Seq<Seq<u8>> {
    let t = spec_search_template(name, path, sep, dirsep);
    if t.len() == 0 {
        Seq::empty()
    } else if t.last() == 59u8 {
        split_semis(t) + seq![Seq::empty()]
    } else {
        split_semis(t)
    }
}

pub open spec fn names_view(v: Seq<Vec<u8>>) -> Seq<Seq<u8>> {
    v.map_values(|x: Vec<u8>| x@)
}

/// The template of a search (see `spec_search_template`).
pub fn search_template(name: &[u8], path: &[u8], sep: &[u8], dirsep: &[u8]) -> (r: Vec<u8>)
    ensures
        r@ == spec_search_template(name@, path@, sep@, dirsep@),
{
    let mut has: bool = false;
    if sep.len() > 0 {
        match crate::urllib::memchr(name, sep[0]) {
            Some(_) => {
                proof {
                    crate::urllib::lemma_first_index(name@, sep@[0], 0);
                }
                has = true;
            },
            None => {
                proof {
                    crate::urllib::lemma_first_index(name@, sep@[0], 0);
                }
            },
        }
    }
    let name2 = if has {
        gsub(name, sep, dirsep)
    } else {
        vstd::slice::slice_to_vec(name)
    };
    let q: [u8; 1] = [63u8];
    proof {
        assert(q@ =~= seq![63u8]);
    }
    gsub(path, &q, name2.as_slice())
}

/// The file names that a search tries (see `spec_search_names`).
pub fn search_names(name: &[u8], path: &[u8], sep: &[u8], dirsep: &[u8]) -> (r: Vec<Vec<u8>>)
    ensures
        names_view(r@) == spec_search_names(name@, path@, sep@, dirsep@),
{
    let t = search_template(name, path, sep, dirsep);
    let mut out: Vec<Vec<u8>> = Vec::new();
    let n = t.len();
    if n == 0 {
        proof {
            assert(names_view(out@) =~= Seq::<Seq<u8>>::empty());
        }
        return out;
    }
    let mut pos: usize = 0;
    proof {
        assert(t@.skip(0) =~= t@);
    }
    while pos < n
        invariant
            pos <= n,
            n == t@.len(),
            n > 0,
            split_semis(t@) == names_view(out@) + split_semis(t@.skip(pos as int)),
        decreases n - pos,
    {
        let rest = &t.as_slice()[pos..n];
        proof {
            assert(rest@ =~= t@.skip(pos as int));
        }
        match crate::urllib::memchr(rest, 59u8) {
            Some(i) => {
                out.push(vstd::slice::slice_to_vec(&rest[0..i]));
                proof {
                    crate::urllib::lemma_first_index(rest@, 59u8, 0);
                    assert(rest@.subrange(0, i as int) =~= rest@.take(i as int));
                    assert(rest@.skip(i + 1) =~= t@.skip(pos + i + 1));
                    assert(names_view(out@) =~= names_view(out@.drop_last()).push(rest@.take(i as int)));
                }
                pos = pos + i + 1;
            },
            None => {
                out.push(vstd::slice::slice_to_vec(rest));
                proof {
                    assert(names_view(out@) =~= names_view(out@.drop_last()).push(rest@));
                    assert(t@.skip(n as int) =~= Seq::<u8>::empty());
                }
                pos = n;
            },
        }
    }
    proof {
        assert(t@.skip(n as int) =~= Seq::<u8>::empty());
        assert(split_semis(Seq::<u8>::empty()) =~= Seq::<Seq<u8>>::empty());
        assert(names_view(out@) + Seq::<Seq<u8>>::empty() =~= names_view(out@));
    }
    if t[n - 1] == 59u8 {
        out.push(Vec::new());
        proof {
            assert(names_view(out@) =~= names_view(out@.drop_last()).push(Seq::<u8>::empty()));
        }
    }
    out
}

/// `no file 'A'\n\tno file 'B'...` for the template (its `;` become the
/// breaks between names).
pub open spec fn spec_not_found(template: Seq<u8>) -> Seq<u8> {
    seq![110u8, 111u8, 32u8, 102u8, 105u8, 108u8, 101u8, 32u8, 39u8] + spec_gsub(
        template,
        seq![59u8],
        seq![39u8, 10u8, 9u8, 110u8, 111u8, 32u8, 102u8, 105u8, 108u8, 101u8, 32u8, 39u8],
    ) + seq![39u8]
}

/// The message of a search that found no file.
pub fn not_found_message(template: &[u8]) -> (r: Vec<u8>)
    ensures
        r@ == spec_not_found(template@),
{
    let mut out: Vec<u8> = vec![110u8, 111u8, 32u8, 102u8, 105u8, 108u8, 101u8, 32u8, 39u8];
    let semi: [u8; 1] = [59u8];
    let rep: [u8; 12] = [39u8, 10u8, 9u8, 110u8, 111u8, 32u8, 102u8, 105u8, 108u8, 101u8, 32u8, 39u8];
    proof {
        assert(semi@ =~= seq![59u8]);
        assert(rep@ =~= seq![39u8, 10u8, 9u8, 110u8, 111u8, 32u8, 102u8, 105u8, 108u8, 101u8, 32u8, 39u8]);
    }
    let body = gsub(template, &semi, &rep);
    crate::toml_writer::append(&mut out, body.as_slice());
    out.push(39u8);
    proof {
        assert(out@ =~= spec_not_found(template@));
    }
    out
}

// ─── C modules ───────────────────────────────────────────────────────────────

/// `luaopen_`
pub open spec fn luaopen() -> Seq<u8> {
    seq![108u8, 117u8, 97u8, 111u8, 112u8, 101u8, 110u8, 95u8]
}

/// The names of the functions that open a C module: with the module's
/// dots made `_`, `luaopen_` and the part before its first `-` (tried
/// first, when there is a `-`), then `luaopen_` and the part after it (or
/// the whole name).
pub open spec fn spec_open_names(modname: Seq<u8>) -> (Option<Seq<u8>>, Seq<u8>) {
    let m = spec_gsub(modname, seq![46u8], seq![95u8]);
    match first_index(m, 45u8, 0) {
        Some(k) => (Some(luaopen() + m.take(k)), luaopen() + m.skip(k + 1)),
        None => (None, luaopen() + m),
    }
}

/// The names of the functions to look for in a C module.
pub fn open_names(modname: &[u8]) -> (r: (Option<Vec<u8>>, Vec<u8>))
    ensures
        (match r.0 {
            Some(v) => Some(v@),
            None => None,
        }, r.1@) == spec_open_names(modname@),
{
    let dot: [u8; 1] = [46u8];
    let us: [u8; 1] = [95u8];
    proof {
        assert(dot@ =~= seq![46u8]);
        assert(us@ =~= seq![95u8]);
    }
    let m = gsub(modname, &dot, &us);
    let n = m.len();
    let prefix: Vec<u8> = vec![108u8, 117u8, 97u8, 111u8, 112u8, 101u8, 110u8, 95u8];
    proof {
        assert(prefix@ =~= luaopen());
    }
    match crate::urllib::memchr(m.as_slice(), 45u8) {
        Some(k) => {
            let mut first = prefix.clone();
            crate::toml_writer::append(&mut first, &m.as_slice()[0..k]);
            let mut second = prefix;
            crate::toml_writer::append(&mut second, &m.as_slice()[k + 1..n]);
            proof {
                assert(m@.subrange(0, k as int) =~= m@.take(k as int));
                assert(m@.subrange(k + 1, n as int) =~= m@.skip(k + 1));
            }
            (Some(first), second)
        },
        None => {
            let mut only = prefix;
            crate::toml_writer::append(&mut only, m.as_slice());
            (None, only)
        },
    }
}

/// The root of a module name for the all-in-one loader: the part before
/// its first `.`; `None` when it has no `.`.
pub fn croot_name(name: &[u8]) -> (r: Option<Vec<u8>>)
    ensures
        match first_index(name@, 46u8, 0) {
            Some(k) => r matches Some(v) && v@ == name@.take(k),
            None => r is None,
        },
{
    match crate::urllib::memchr(name, 46u8) {
        Some(k) => {
            let v = vstd::slice::slice_to_vec(&name[0..k]);
            proof {
                assert(name@.subrange(0, k as int) =~= name@.take(k as int));
            }
            Some(v)
        },
        None => None,
    }
}


// ─── Finding a loader ────────────────────────────────────────────────────────

/// What a searcher of `package.searchers` gave back for a module.
#[derive(Debug, Clone, PartialEq, Eq)]
pub enum SearcherReply {
    /// A loader function: the search is over.
    Loader,
    /// A string explaining why it found nothing.
    Message(Vec<u8>),
    /// Anything else: it found nothing and says nothing.
    Other,
}

/// What the search does next.
#[derive(Debug, Clone, PartialEq, Eq)]
pub enum FindAction {
    /// Use the loader the searcher gave.
    Found,
    /// Ask the next searcher.
    AskNext,
}

/// Takes in the reply of one searcher: the search ends on a loader; a
/// message is added to the explanation, after a line break and a tab;
/// anything else adds nothing.
pub fn findloader_step(explanation: &mut Vec<u8>, reply: &SearcherReply) -> (r: FindAction)
    ensures
        r == (if *reply == SearcherReply::Loader { FindAction::Found } else { FindAction::AskNext }),
        final(explanation)@ == old(explanation)@ + match *reply {
            SearcherReply::Message(m) => seq![10u8, 9u8] + m@,
            _ => Seq::empty(),
        },
{
    match reply {
        SearcherReply::Loader => {
            proof {
                assert(final(explanation)@ =~= old(explanation)@ + Seq::<u8>::empty());
            }
            FindAction::Found
        },
        SearcherReply::Message(m) => {
            explanation.push(10u8);
            explanation.push(9u8);
            explanation.extend_from_slice(m.as_slice());
            proof {
                assert(final(explanation)@ =~= old(explanation)@ + (seq![10u8, 9u8] + m@));
            }
            FindAction::AskNext
        },
        SearcherReply::Other => {
            proof {
                assert(final(explanation)@ =~= old(explanation)@ + Seq::<u8>::empty());
            }
            FindAction::AskNext
        },
    }
}

/// `module '<name>' not found:<explanation>`, once every searcher has
/// found nothing (the name is read up to its first zero byte).
pub open spec fn spec_module_not_found(name: Seq<u8>, explanation: Seq<u8>) -> Seq<u8> {
    seq![109u8, 111u8, 100u8, 117u8, 108u8, 101u8, 32u8, 39u8] + crate::lobject::cstr(name)
        + seq![39u8, 32u8, 110u8, 111u8, 116u8, 32u8, 102u8, 111u8, 117u8, 110u8, 100u8, 58u8] + explanation
}

/// The error of a module that no searcher found.
pub fn module_not_found(name: &[u8], explanation: &[u8]) -> (r: Vec<u8>)
    ensures
        r@ == spec_module_not_found(name@, explanation@),
{
    let mut out: Vec<u8> = vec![109u8, 111u8, 100u8, 117u8, 108u8, 101u8, 32u8, 39u8];
    let n = crate::lobject::cstr_exec(name);
    out.extend_from_slice(n.as_slice());
    let mid: Vec<u8> = vec![39u8, 32u8, 110u8, 111u8, 116u8, 32u8, 102u8, 111u8, 117u8, 110u8, 100u8, 58u8];
    out.extend_from_slice(mid.as_slice());
    out.extend_from_slice(explanation);
    proof {
        assert(out@ =~= spec_module_not_found(name@, explanation@));
    }
    out
}

} // verus!
