//! Byte-level helpers for entry names and paths.
//!
//! Paths are handled as byte strings, the form in which the operating
//! system hands them out. All case folding is ASCII-only, matching the
//! folding applied to candidate names during a search.

use vstd::prelude::*;

verus! {

/// The path separator byte.
pub open spec fn slash() -> u8 {
    47u8
}

/// The dot byte, the marker of hidden names and of the self/parent entries.
pub open spec fn dot() -> u8 {
    46u8
}

/// ASCII lower-casing of one byte; bytes outside `A`..=`Z` are unchanged.
pub open spec fn lower(b: u8) -> u8 {
    if 65 <= b && b <= 90 {
        (b + 32) as u8
    } else {
        b
    }
}

/// The byte string a comparison sees: folded to ASCII lower case when the
/// search is case-insensitive, untouched otherwise.
pub open spec fn fold_seq(s: Seq<u8>, case_sensitive: bool) -> Seq<u8> {
    if case_sensitive {
        s
    } else {
        s.map_values(|b: u8| lower(b))
    }
}

/// Folds a byte string to ASCII lower case.
pub fn to_ascii_lower(s: &Vec<u8>) -> (r: Vec<u8>)
    ensures
        r@ == s@.map_values(|b: u8| lower(b)),
{
    let mut r: Vec<u8> = Vec::new();
    let mut i: usize = 0;
    while i < s.len()
        invariant
            i <= s@.len(),
            r@ == s@.take(i as int).map_values(|b: u8| lower(b)),
        decreases s@.len() - i,
    {
        let b = s[i];
        if 65 <= b && b <= 90 {
            r.push(b + 32);
        } else {
            r.push(b);
        }
        proof {
            assert(s@.take(i + 1).map_values(|b: u8| lower(b)) =~= s@.take(i as int).map_values(
                |b: u8| lower(b),
            ).push(lower(s@[i as int])));
        }
        i = i + 1;
    }
    proof {
        assert(s@.take(s@.len() as int) =~= s@);
    }
    r
}

/// `p` stands at the front of `s`.
pub open spec fn is_prefix_of(s: Seq<u8>, p: Seq<u8>) -> bool {
    p.len() <= s.len() && s.subrange(0, p.len() as int) == p
}

/// `p` stands at the end of `s`.
pub open spec fn is_suffix_of(s: Seq<u8>, p: Seq<u8>) -> bool {
    p.len() <= s.len() && s.subrange(s.len() - p.len(), s.len() as int) == p
}

/// Whether `s` starts with `p`.
pub fn starts_with(s: &Vec<u8>, p: &Vec<u8>) -> (r: bool)
    ensures
        r == is_prefix_of(s@, p@),
{
    if p.len() > s.len() {
        return false;
    }
    let mut i: usize = 0;
    while i < p.len()
        invariant
            i <= p@.len() <= s@.len(),
            forall|j: int| 0 <= j < i ==> s@[j] == p@[j],
        decreases p@.len() - i,
    {
        if s[i] != p[i] {
            proof {
                assert(s@.subrange(0, p@.len() as int)[i as int] == s@[i as int]);
            }
            return false;
        }
        i = i + 1;
    }
    proof {
        assert(s@.subrange(0, p@.len() as int) =~= p@);
    }
    true
}

/// Whether `s` ends with `p`.
pub fn ends_with(s: &Vec<u8>, p: &Vec<u8>) -> (r: bool)
    ensures
        r == is_suffix_of(s@, p@),
{
    if p.len() > s.len() {
        return false;
    }
    let off: usize = s.len() - p.len();
    let mut i: usize = 0;
    while i < p.len()
        invariant
            i <= p@.len() <= s@.len(),
            s@.len() <= usize::MAX,
            off == s@.len() - p@.len(),
            forall|j: int| 0 <= j < i ==> s@[off + j] == p@[j],
        decreases p@.len() - i,
    {
        if s[off + i] != p[i] {
            proof {
                assert(s@.subrange(s@.len() - p@.len(), s@.len() as int)[i as int] == s@[off
                    + i as int]);
            }
            return false;
        }
        i = i + 1;
    }
    proof {
        assert(s@.subrange(s@.len() - p@.len(), s@.len() as int) =~= p@);
    }
    true
}

/// `needle` occurs in `hay` at offset `i`.
pub open spec fn is_match_at(hay: Seq<u8>, needle: Seq<u8>, i: int) -> bool {
    0 <= i && i + needle.len() <= hay.len() && hay.subrange(i, i + needle.len()) == needle
}

/// `needle` occurs somewhere in `hay`; the empty needle occurs everywhere.
pub open spec fn has_substring(hay: Seq<u8>, needle: Seq<u8>) -> bool {
    exists|i: int| is_match_at(hay, needle, i)
}

/// Relies on memchr's substring search `memchr::memmem::find`: it returns
/// the index of the first occurrence of `needle` in `haystack`, and `None`
/// exactly when there is no occurrence (an empty needle occurs at 0).
pub assume_specification [ memchr::memmem::find ](haystack: &[u8], needle: &[u8]) -> (r: Option<
    usize,
>)
    ensures
        match r {
            Some(i) => is_match_at(haystack@, needle@, i as int) && forall|j: int|
                0 <= j < i ==> !is_match_at(haystack@, needle@, j),
            None => forall|j: int| !is_match_at(haystack@, needle@, j),
        },
;

/// Relies on `memchr::memrchr`: it returns the index of the last
/// occurrence of the byte `needle` in `haystack`, and `None` exactly when
/// the byte does not occur.
pub assume_specification [ memchr::memrchr ](needle: u8, haystack: &[u8]) -> (r: Option<usize>)
    ensures
        match r {
            Some(i) => i < haystack@.len() && haystack@[i as int] == needle && forall|j: int|
                i < j < haystack@.len() ==> haystack@[j] != needle,
            None => forall|j: int| 0 <= j < haystack@.len() ==> haystack@[j] != needle,
        },
;

/// Whether `needle` occurs in `hay` as a substring.
pub fn contains_substring(hay: &Vec<u8>, needle: &Vec<u8>) -> (r: bool)
    ensures
        r == has_substring(hay@, needle@),
{
    let found = memchr::memmem::find(hay.as_slice(), needle.as_slice());
    match found {
        Some(i) => {
            proof {
                assert(is_match_at(hay@, needle@, i as int));
            }
            true
        },
        None => false,
    }
}

/// The index where the base name of a path begins: just past the last
/// slash, or 0 when the path has no slash.
pub open spec fn base_start(p: Seq<u8>) -> int
    decreases p.len(),
{
    if p.len() == 0 {
        0
    } else if p[p.len() - 1] == slash() {
        p.len() as int
    } else {
        base_start(p.drop_last())
    }
}

/// The base name of a path: everything past the last slash.
pub open spec fn base_name(p: Seq<u8>) -> Seq<u8> {
    p.subrange(base_start(p), p.len() as int)
}

/// `base_start` points just past the last slash of the path.
pub proof fn lemma_base_start(p: Seq<u8>)
    ensures
        0 <= base_start(p) <= p.len(),
        base_start(p) > 0 ==> p[base_start(p) - 1] == slash(),
        forall|j: int| base_start(p) <= j < p.len() ==> p[j] != slash(),
    decreases p.len(),
{
    if p.len() == 0 {
    } else if p[p.len() - 1] == slash() {
    } else {
        lemma_base_start(p.drop_last());
        assert forall|j: int| base_start(p) <= j < p.len() implies p[j] != slash() by {
            if j < p.len() - 1 {
                assert(p.drop_last()[j] == p[j]);
            }
        }
    }
}

/// The final component of a path: the bytes past the last slash.
///
/// The walk hands this function paths produced by listing a directory, so
/// the component is a real entry name; paths ending in a slash yield the
/// empty name.
pub fn file_name(path: &Vec<u8>) -> (r: Vec<u8>)
    ensures
        r@ == base_name(path@),
{
    proof {
        lemma_base_start(path@);
    }
    let plen: usize = path.len();
    let start: usize = match memchr::memrchr(47u8, path.as_slice()) {
        Some(i) => {
            proof {
                assert(base_start(path@) == i + 1) by {
                    if base_start(path@) > i + 1 {
                        assert(path@[base_start(path@) - 1] == slash());
                    }
                    if base_start(path@) < i + 1 {
                        assert(path@[i as int] == slash());
                    }
                }
                assert(i < plen);
            }
            i + 1
        },
        None => {
            proof {
                assert(base_start(path@) == 0) by {
                    if base_start(path@) > 0 {
                        assert(path@[base_start(path@) - 1] == slash());
                    }
                }
            }
            0
        },
    };
    let mut r: Vec<u8> = Vec::new();
    let mut i: usize = start;
    while i < path.len()
        invariant
            start <= i <= path@.len(),
            start == base_start(path@),
            r@ == path@.subrange(start as int, i as int),
        decreases path@.len() - i,
    {
        r.push(path[i]);
        proof {
            assert(path@.subrange(start as int, i + 1) =~= path@.subrange(start as int, i as int)
                .push(path@[i as int]));
        }
        i = i + 1;
    }
    r
}

/// A path with its trailing slashes removed.
pub open spec fn strip_trailing_slashes(p: Seq<u8>) -> Seq<u8>
    decreases p.len(),
{
    if p.len() > 0 && p[p.len() - 1] == slash() {
        strip_trailing_slashes(p.drop_last())
    } else {
        p
    }
}

/// The base name a path names as a component, in the manner of the
/// standard path API: trailing slashes are dropped first, and an empty,
/// `.` or `..` component yields nothing.
pub open spec fn spec_std_base(p: Seq<u8>) -> Option<Seq<u8>> {
    let q = base_name(strip_trailing_slashes(p));
    if q.len() == 0 || q == seq![dot()] || q == seq![dot(), dot()] {
        None
    } else {
        Some(q)
    }
}

/// The component base name of a path, or nothing for an empty, `.` or
/// `..` component. Used for relative ignore entries, which match by name.
pub fn std_base(p: &Vec<u8>) -> (r: Option<Vec<u8>>)
    ensures
        match spec_std_base(p@) {
            Some(s) => r matches Some(v) && v@ == s,
            None => r is None,
        },
{
    let mut e: usize = p.len();
    proof {
        assert(p@.take(e as int) =~= p@);
    }
    while e > 0 && p[e - 1] == 47u8
        invariant
            e <= p@.len(),
            strip_trailing_slashes(p@) == strip_trailing_slashes(p@.take(e as int)),
        decreases e,
    {
        proof {
            assert(p@.take(e as int).drop_last() =~= p@.take(e - 1));
        }
        e = e - 1;
    }
    let mut stripped: Vec<u8> = Vec::new();
    let mut i: usize = 0;
    while i < e
        invariant
            i <= e <= p@.len(),
            stripped@ == p@.take(e as int).take(i as int),
        decreases e - i,
    {
        proof {
            assert(p@.take(e as int).take(i + 1) =~= p@.take(e as int).take(i as int).push(
                p@[i as int],
            ));
            assert(p@.take(e as int)[i as int] == p@[i as int]);
        }
        stripped.push(p[i]);
        i = i + 1;
    }
    proof {
        assert(p@.take(e as int).take(e as int) =~= p@.take(e as int));
        assert(strip_trailing_slashes(p@.take(e as int)) == p@.take(e as int)) by {
            if e > 0 {
                assert(p@.take(e as int)[e - 1] == p@[e - 1]);
            }
        }
    }
    let q = file_name(&stripped);
    if q.len() == 0 {
        proof {
            assert(spec_std_base(p@) is None);
        }
        None
    } else if q.len() == 1 && q[0] == 46u8 {
        proof {
            assert(q@ =~= seq![dot()]);
        }
        None
    } else if q.len() == 2 && q[0] == 46u8 && q[1] == 46u8 {
        proof {
            assert(q@ =~= seq![dot(), dot()]);
        }
        None
    } else {
        proof {
            assert(q@ != seq![dot()] && q@ != seq![dot(), dot()]) by {
                if q@ == seq![dot()] {
                    assert(q@.len() == 1 && q@[0] == dot());
                }
                if q@ == seq![dot(), dot()] {
                    assert(q@.len() == 2 && q@[0] == dot() && q@[1] == dot());
                }
            }
        }
        Some(q)
    }
}

/// Whether the entry a path names is hidden: its base name starts with a
/// dot, or the platform's hidden attribute is set on it. The attribute
/// bit is probed by the caller once per entry; it is always false on
/// platforms whose only convention is the leading dot.
pub open spec fn spec_hidden(path: Seq<u8>, attr_hidden: bool) -> bool {
    attr_hidden || (base_name(path).len() > 0 && base_name(path)[0] == dot())
}

/// Whether an entry is hidden: by a leading dot in its base name, or by
/// the platform's hidden attribute.
pub fn is_hidden(path: &Vec<u8>, attr_hidden: bool) -> (r: bool)
    ensures
        r == spec_hidden(path@, attr_hidden),
{
    if attr_hidden {
        true
    } else {
        let n = file_name(path);
        n.len() > 0 && n[0] == 46u8
    }
}

} // verus!
