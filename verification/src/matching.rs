//! Matching a cell's text against a keyword: exact, prefix or fuzzy, all
//! ignoring ASCII case, on the UTF-8 bytes of the text.
use vstd::prelude::*;
use vstd::utf8::{encode_utf8, is_char_boundary};
use crate::text::chars_of;

verus! {

/// How a keyword is matched.
#[derive(PartialEq, Eq, Structural, Clone, Copy, Debug)]
pub enum MatchMode {
    Exact,
    Prefix,
    Fuzzy,
}

pub open spec fn mode_spec(m: Seq<char>) -> MatchMode {
    if m == seq!['e', 'x', 'a', 'c', 't'] {
        MatchMode::Exact
    } else if m == seq!['p', 'r', 'e', 'f', 'i', 'x'] {
        MatchMode::Prefix
    } else {
        MatchMode::Fuzzy
    }
}

fn chars_are(c: &Vec<char>, w: &[char]) -> (b: bool)
    ensures
        b == (c@ == w@),
{
    if c.len() != w.len() {
        return false;
    }
    let mut i: usize = 0;
    while i < c.len()
        invariant
            i <= c@.len() == w@.len(),
            forall|t: int| 0 <= t < i ==> c@[t] == w@[t],
        decreases c@.len() - i,
    {
        if c[i] != w[i] {
            return false;
        }
        i = i + 1;
    }
    assert(c@ =~= w@);
    true
}

/// `"exact"` and `"prefix"` name their modes; any other text is fuzzy.
pub fn match_mode(mode: &str) -> (m: MatchMode)
    ensures
        m == mode_spec(mode@),
{
    let c = chars_of(mode);
    let exact: [char; 5] = ['e', 'x', 'a', 'c', 't'];
    let prefix: [char; 6] = ['p', 'r', 'e', 'f', 'i', 'x'];
    assert(exact@ =~= seq!['e', 'x', 'a', 'c', 't']);
    assert(prefix@ =~= seq!['p', 'r', 'e', 'f', 'i', 'x']);
    if chars_are(&c, exact.as_slice()) {
        MatchMode::Exact
    } else if chars_are(&c, prefix.as_slice()) {
        MatchMode::Prefix
    } else {
        MatchMode::Fuzzy
    }
}

pub open spec fn lower_byte(b: u8) -> u8 {
    if 0x41 <= b <= 0x5a {
        (b + 32) as u8
    } else {
        b
    }
}

/// `[u8]::eq_ignore_ascii_case`.
pub open spec fn bytes_eq_ic(a: Seq<u8>, b: Seq<u8>) -> bool {
    &&& a.len() == b.len()
    &&& forall|i: int| 0 <= i < a.len() ==> lower_byte(#[trigger] a[i]) == lower_byte(b[i])
}

/// Some window of `h` equals `n` up to ASCII case (an empty `n` always does).
pub open spec fn contains_ic(h: Seq<u8>, n: Seq<u8>) -> bool {
    n.len() == 0 || exists|i: int|
        0 <= i <= h.len() - n.len() && #[trigger] bytes_eq_ic(h.subrange(i, i + n.len()), n)
}

/// Whether a cell's text matches the keyword in the mode; an empty keyword
/// matches nothing.
pub open spec fn cell_matches_spec(v: Seq<char>, k: Seq<char>, mode: MatchMode) -> bool {
    let vb = encode_utf8(v);
    let kb = encode_utf8(k);
    if k.len() == 0 {
        false
    } else {
        match mode {
            MatchMode::Exact => bytes_eq_ic(vb, kb),
            MatchMode::Prefix => vb.len() >= kb.len() && is_char_boundary(vb, kb.len() as int)
                && bytes_eq_ic(vb.take(kb.len() as int), kb),
            MatchMode::Fuzzy => contains_ic(vb, kb),
        }
    }
}

fn lower_of_byte(b: u8) -> (r: u8)
    ensures
        r == lower_byte(b),
{
    if 0x41 <= b && b <= 0x5a {
        b + 32
    } else {
        b
    }
}

/// ASCII-case-insensitive equality of `h[at..at + n.len()]` and `n`.
fn eq_ic_at(h: &[u8], at: usize, n: &[u8]) -> (r: bool)
    requires
        at + n@.len() <= h@.len(),
    ensures
        r == bytes_eq_ic(h@.subrange(at as int, at + n@.len()), n@),
{
    let ghost w = h@.subrange(at as int, at + n@.len());
    let hl = h.len();
    let mut i: usize = 0;
    while i < n.len()
        invariant
            hl == h@.len(),
            i <= n@.len(),
            at + n@.len() <= h@.len(),
            w == h@.subrange(at as int, at + n@.len()),
            forall|t: int| 0 <= t < i ==> lower_byte(#[trigger] w[t]) == lower_byte(n@[t]),
        decreases n@.len() - i,
    {
        if lower_of_byte(h[at + i]) != lower_of_byte(n[i]) {
            assert(w[i as int] == h@[at + i]);
            return false;
        }
        i = i + 1;
    }
    true
}

/// Whether `needle` occurs in `haystack` ignoring ASCII case.
pub fn contains_ignore_case(haystack: &str, needle: &str) -> (r: bool)
    ensures
        r == contains_ic(encode_utf8(haystack@), encode_utf8(needle@)),
{
    if needle.is_empty() {
        assert(encode_utf8(needle@) =~= Seq::<u8>::empty());
        return true;
    }
    let nb = needle.as_bytes();
    let hb = haystack.as_bytes();
    if nb.len() > hb.len() {
        return false;
    }
    let ghost hv = encode_utf8(haystack@);
    let ghost nv = encode_utf8(needle@);
    assert(hb@ == hv && nb@ == nv);
    let last = hb.len() - nb.len();
    let mut i: usize = 0;
    while i <= last
        invariant
            last == hb@.len() - nb@.len(),
            last < usize::MAX,
            0 < nb@.len() <= hb@.len(),
            i <= last + 1,
            hb@ == hv,
            nb@ == nv,
            hv == encode_utf8(haystack@),
            nv == encode_utf8(needle@),
            forall|t: int| 0 <= t < i ==> !#[trigger] bytes_eq_ic(hb@.subrange(t, t + nb@.len()), nb@),
        decreases last + 1 - i,
    {
        if eq_ic_at(hb, i, nb) {
            assert(bytes_eq_ic(hv.subrange(i as int, i + nv.len()), nv));
            assert(0 <= i <= hv.len() - nv.len());
            assert(contains_ic(hv, nv));
            return true;
        }
        i = i + 1;
    }
    assert(!contains_ic(hv, nv));
    false
}

/// Whether a cell's text matches the keyword in the given mode.
pub fn matches_in_mode(value: &str, keyword: &str, mode: MatchMode) -> (r: bool)
    ensures
        r == cell_matches_spec(value@, keyword@, mode),
{
    if keyword.is_empty() {
        return false;
    }
    match mode {
        MatchMode::Exact => {
            let vb = value.as_bytes();
            let kb = keyword.as_bytes();
            if vb.len() != kb.len() {
                return false;
            }
            let r = eq_ic_at(vb, 0, kb);
            assert(vb@.subrange(0, kb@.len() as int) =~= vb@);
            r
        },
        MatchMode::Prefix => {
            let vb = value.as_bytes();
            let kb = keyword.as_bytes();
            let bytes = kb.len();
            if !(vb.len() >= bytes && value.is_char_boundary(bytes)) {
                return false;
            }
            let r = eq_ic_at(vb, 0, kb);
            assert(vb@.subrange(0, kb@.len() as int) =~= vb@.take(kb@.len() as int));
            r
        },
        MatchMode::Fuzzy => contains_ignore_case(value, keyword),
    }
}

/// Whether a cell's text matches the keyword in the mode named by `mode`
/// (`"exact"`, `"prefix"`, anything else fuzzy).
pub fn cell_matches(value: &str, keyword: &str, mode: &str) -> (r: bool)
    ensures
        r == cell_matches_spec(value@, keyword@, mode_spec(mode@)),
{
    matches_in_mode(value, keyword, match_mode(mode))
}

} // verus!
