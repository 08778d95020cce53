//! The match predicate: given one directory entry and the configuration,
//! decide whether the entry is skipped, matched exactly, matched as
//! containing the query, and whether the walk descends into it.

use vstd::prelude::*;
use crate::names::{
    base_name, fold_seq, has_substring, is_match_at, is_prefix_of, is_suffix_of, slash,
    spec_hidden, spec_std_base,
};
use crate::searchresult::SearchResult;
use crate::structs::{FileType, Search};

verus! {

/// One directory entry as the predicate sees it: its path, the result of
/// the file-type probe (a failed probe reads as not-a-directory), the
/// platform's hidden-attribute bit, and its canonical path when one
/// could be resolved.
pub struct Entry {
    /// The entry's path as listed.
    pub path: Vec<u8>,
    /// Whether the type probe reported a directory; false on a failed probe.
    pub is_dir: bool,
    /// The platform's hidden-attribute bit; false where only the leading
    /// dot marks hidden entries.
    pub attr_hidden: bool,
    /// The canonical form of the path, when resolving it succeeded. Only
    /// consulted while explicit ignore entries exist.
    pub canonical: Option<Vec<u8>>,
}

/// The view of an optional byte vector.
pub open spec fn opt_view(o: Option<Vec<u8>>) -> Option<Seq<u8>> {
    match o {
        Some(v) => Some(v@),
        None => None,
    }
}

/// Whether one ignore entry rules an entry out: an absolute ignore entry
/// matches the canonical path in full, a relative one matches the
/// component base name.
pub open spec fn spec_ignore_entry_matches(
    e: Seq<u8>,
    path: Seq<u8>,
    canonical: Option<Seq<u8>>,
) -> bool {
    if e.len() > 0 && e[0] == slash() {
        canonical matches Some(c) && e == c
    } else {
        spec_std_base(e) is Some && spec_std_base(e) == spec_std_base(path)
    }
}

/// Whether any configured ignore entry rules the entry out.
pub open spec fn spec_ignored(cfg: Search, path: Seq<u8>, canonical: Option<Seq<u8>>) -> bool {
    exists|k: int|
        0 <= k < cfg.explicit_ignore@.len() && spec_ignore_entry_matches(
            #[trigger] cfg.explicit_ignore@[k]@,
            path,
            canonical,
        )
}

/// Whether the entry is passed over entirely: ruled out by an ignore
/// entry (or by a canonical path that could not be resolved while ignore
/// entries exist), or hidden while hidden entries are not traversed. The
/// ignore rule takes precedence: it applies even to entries the hidden
/// rule would admit.
pub open spec fn spec_skip(
    cfg: Search,
    path: Seq<u8>,
    canonical: Option<Seq<u8>>,
    attr_hidden: bool,
) -> bool {
    ||| cfg.explicit_ignore@.len() > 0 && (canonical is None || spec_ignored(
        cfg,
        path,
        canonical,
    ))
    ||| !cfg.hidden && spec_hidden(path, attr_hidden)
}

/// Whether the entry's kind passes the type filter.
pub open spec fn spec_type_ok(ft: FileType, is_dir: bool) -> bool {
    match ft {
        FileType::All => true,
        FileType::Dir => is_dir,
        FileType::File => !is_dir,
    }
}

/// The base name of the entry as comparisons see it.
pub open spec fn spec_folded(cfg: Search, path: Seq<u8>) -> Seq<u8> {
    fold_seq(base_name(path), cfg.case_sensitive)
}

/// Whether the entry passes the type, prefix and suffix filters.
pub open spec fn spec_filters_pass(cfg: Search, path: Seq<u8>, is_dir: bool) -> bool {
    &&& spec_type_ok(cfg.ftype, is_dir)
    &&& is_prefix_of(spec_folded(cfg, path), cfg.starts@)
    &&& is_suffix_of(spec_folded(cfg, path), cfg.ends@)
}

/// Whether the entry is an exact match: it passes the filters and its
/// folded name equals the query.
pub open spec fn spec_exact(cfg: Search, path: Seq<u8>, is_dir: bool) -> bool {
    spec_filters_pass(cfg, path, is_dir) && spec_folded(cfg, path) == cfg.name@
}

/// Whether the entry is a containing match: it passes the filters, its
/// folded name holds the query strictly as a substring, and exact-only
/// mode is off.
pub open spec fn spec_contains(cfg: Search, path: Seq<u8>, is_dir: bool) -> bool {
    &&& spec_filters_pass(cfg, path, is_dir)
    &&& has_substring(spec_folded(cfg, path), cfg.name@)
    &&& spec_folded(cfg, path) != cfg.name@
    &&& !cfg.exact
}

/// The ignore rule takes precedence over the hidden rule: an entry
/// ruled out by an ignore entry is passed over whatever its hidden
/// status is and whether or not hidden entries are traversed.
pub proof fn lemma_ignore_precedence(
    cfg: Search,
    path: Seq<u8>,
    canonical: Option<Seq<u8>>,
    attr_hidden: bool,
)
    requires
        cfg.explicit_ignore@.len() > 0,
        spec_ignored(cfg, path, canonical),
    ensures
        spec_skip(cfg, path, canonical, attr_hidden),
{
}

/// Whether two byte vectors hold the same bytes.
fn bytes_eq(a: &Vec<u8>, b: &Vec<u8>) -> (r: bool)
    ensures
        r == (a@ == b@),
{
    if a.len() != b.len() {
        return false;
    }
    let mut i: usize = 0;
    while i < a.len()
        invariant
            i <= a@.len() == b@.len(),
            forall|j: int| 0 <= j < i ==> a@[j] == b@[j],
        decreases a@.len() - i,
    {
        if a[i] != b[i] {
            return false;
        }
        i = i + 1;
    }
    proof {
        assert(a@ =~= b@);
    }
    true
}

/// Whether any configured ignore entry rules the entry out; `canonical`
/// is the entry's resolved canonical path.
fn is_ignored(search: &Search, path: &Vec<u8>, canonical: &Vec<u8>) -> (r: bool)
    ensures
        r == spec_ignored(*search, path@, Some(canonical@)),
{
    let entry_base = crate::names::std_base(path);
    let mut k: usize = 0;
    while k < search.explicit_ignore.len()
        invariant
            k <= search.explicit_ignore@.len(),
            match entry_base {
                Some(v) => spec_std_base(path@) matches Some(s) && v@ == s,
                None => spec_std_base(path@) is None,
            },
            forall|j: int|
                0 <= j < k ==> !spec_ignore_entry_matches(
                    #[trigger] search.explicit_ignore@[j]@,
                    path@,
                    Some(canonical@),
                ),
        decreases search.explicit_ignore@.len() - k,
    {
        let e = &search.explicit_ignore[k];
        if e.len() > 0 && e[0] == 47u8 {
            if bytes_eq(e, canonical) {
                return true;
            }
        } else {
            let ignore_base = crate::names::std_base(e);
            match (&ignore_base, &entry_base) {
                (Some(ib), Some(pb)) => {
                    if bytes_eq(ib, pb) {
                        return true;
                    }
                },
                _ => {},
            }
        }
        k = k + 1;
    }
    false
}

/// Runs the match predicate on one entry.
///
/// Nothing at all is returned for an entry that is passed over.
/// Otherwise the first component classifies the entry — an exact match,
/// a containing match, or no match — and the second carries the entry's
/// path back when the walk should descend into it. A matching directory
/// yields both.
pub fn is_result(entry: &Entry, search: &Search) -> (r: Option<
    (Option<SearchResult>, Option<Vec<u8>>),
>)
    ensures
        match r {
            None => spec_skip(
                *search,
                entry.path@,
                opt_view(entry.canonical),
                entry.attr_hidden,
            ),
            Some(pair) => {
                &&& !spec_skip(*search, entry.path@, opt_view(entry.canonical), entry.attr_hidden)
                &&& (match pair.1 {
                    Some(p) => entry.is_dir && p@ == entry.path@,
                    None => !entry.is_dir,
                })
                &&& (match pair.0 {
                    Some(m) => match m {
                        SearchResult::Exact(p) => p@ == entry.path@ && spec_exact(
                            *search,
                            entry.path@,
                            entry.is_dir,
                        ),
                        SearchResult::Contains(p) => p@ == entry.path@ && spec_contains(
                            *search,
                            entry.path@,
                            entry.is_dir,
                        ),
                    },
                    None => !spec_exact(*search, entry.path@, entry.is_dir) && !spec_contains(
                        *search,
                        entry.path@,
                        entry.is_dir,
                    ),
                })
            },
        },
{
    if search.explicit_ignore.len() > 0 {
        match &entry.canonical {
            None => {
                return None;
            },
            Some(c) => {
                if is_ignored(search, &entry.path, c) {
                    return None;
                }
            },
        }
    }
    if !search.hidden && crate::names::is_hidden(&entry.path, entry.attr_hidden) {
        return None;
    }

    let ftype_ok = match search.ftype {
        FileType::All => true,
        FileType::Dir => entry.is_dir,
        FileType::File => !entry.is_dir,
    };

    let fname = crate::names::file_name(&entry.path);
    let sname = if search.case_sensitive {
        fname
    } else {
        crate::names::to_ascii_lower(&fname)
    };
    proof {
        assert(sname@ == spec_folded(*search, entry.path@));
    }

    let rec: Option<Vec<u8>> = if entry.is_dir {
        Some(entry.path.clone())
    } else {
        None
    };

    if ftype_ok && crate::names::starts_with(&sname, &search.starts) && crate::names::ends_with(
        &sname,
        &search.ends,
    ) {
        if crate::names::contains_substring(&sname, &search.name) {
            if sname.len() == search.name.len() {
                proof {
                    let i = choose|i: int| is_match_at(sname@, search.name@, i);
                    assert(i == 0);
                    assert(sname@.subrange(0, sname@.len() as int) =~= sname@);
                    assert(sname@ == search.name@);
                }
                return Some((Some(SearchResult::exact(entry.path.clone())), rec));
            } else if !search.exact {
                return Some((Some(SearchResult::contains(entry.path.clone())), rec));
            }
        }
    }
    proof {
        if spec_folded(*search, entry.path@) == search.name@ {
            assert(sname@.subrange(0, search.name@.len() as int) =~= sname@);
            assert(is_match_at(sname@, search.name@, 0));
        }
    }
    Some((None, rec))
}

/// The first configured root that does not exist, if any. A missing root
/// is fatal for the whole run: the walk must not start and nothing may
/// be reported. The caller probes each root once and hands the flags in
/// root order.
pub fn check_roots(present: &Vec<bool>) -> (r: Option<usize>)
    ensures
        match r {
            Some(i) => i < present@.len() && !present@[i as int] && forall|j: int|
                0 <= j < i ==> present@[j],
            None => forall|j: int| 0 <= j < present@.len() ==> present@[j],
        },
{
    let mut i: usize = 0;
    while i < present.len()
        invariant
            i <= present@.len(),
            forall|j: int| 0 <= j < i ==> present@[j],
        decreases present@.len() - i,
    {
        if !present[i] {
            return Some(i);
        }
        i = i + 1;
    }
    None
}

} // verus!
