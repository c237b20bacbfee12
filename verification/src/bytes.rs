//! Byte-level searching and number parsing used by the worksheet reader.
use vstd::prelude::*;

verus! {

/// First index at or after `from` holding `b`.
pub open spec fn next_byte(hay: Seq<u8>, from: int, b: u8) -> Option<int>
    decreases hay.len() - from,
{
    if from < 0 || from >= hay.len() {
        None
    } else if hay[from] == b {
        Some(from)
    } else {
        next_byte(hay, from + 1, b)
    }
}

/// Does `needle` occur in `hay` at `at`?
pub open spec fn occurs_at(hay: Seq<u8>, at: int, needle: Seq<u8>) -> bool {
    0 <= at && at + needle.len() <= hay.len() && hay.subrange(at, at + needle.len()) == needle
}

/// First index at or after `from` where `needle` (not empty) occurs.
pub open spec fn find_seq(hay: Seq<u8>, from: int, needle: Seq<u8>) -> Option<int>
    decreases hay.len() - from,
{
    if needle.len() == 0 || from < 0 || from + needle.len() > hay.len() {
        None
    } else if occurs_at(hay, from, needle) {
        Some(from)
    } else {
        find_seq(hay, from + 1, needle)
    }
}

pub proof fn lemma_next_byte(hay: Seq<u8>, from: int, b: u8)
    ensures
        next_byte(hay, from, b) matches Some(i) ==> from <= i < hay.len() && hay[i] == b && 0
            <= from,
        next_byte(hay, from, b) matches Some(i) ==> forall|t: int|
            from <= t < i ==> #[trigger] hay[t] != b,
        next_byte(hay, from, b) is None && 0 <= from ==> forall|t: int|
            from <= t < hay.len() ==> #[trigger] hay[t] != b,
    decreases hay.len() - from,
{
    if 0 <= from < hay.len() && hay[from] != b {
        lemma_next_byte(hay, from + 1, b);
    }
}

pub proof fn lemma_find_seq(hay: Seq<u8>, from: int, needle: Seq<u8>)
    ensures
        find_seq(hay, from, needle) matches Some(i) ==> from <= i && occurs_at(hay, i, needle),
    decreases hay.len() - from,
{
    if !(needle.len() == 0 || from < 0 || from + needle.len() > hay.len()) && !occurs_at(
        hay,
        from,
        needle,
    ) {
        lemma_find_seq(hay, from + 1, needle);
    }
}

/// `memchr::memchr`: the index of the first `needle` byte in `haystack`.
#[verifier::external_body]
fn memchr(needle: u8, haystack: &[u8]) -> (r: Option<usize>)
    ensures
        match r {
            Some(i) => i < haystack@.len() && haystack@[i as int] == needle && forall|t: int|
                0 <= t < i ==> #[trigger] haystack@[t] != needle,
            None => forall|t: int| 0 <= t < haystack@.len() ==> #[trigger] haystack@[t] != needle,
        },
{
    memchr::memchr(needle, haystack)
}

pub proof fn lemma_next_byte_skip(hay: Seq<u8>, from: int, to: int, b: u8)
    requires
        0 <= from <= to,
        forall|t: int| from <= t < to && t < hay.len() ==> #[trigger] hay[t] != b,
    ensures
        next_byte(hay, from, b) == next_byte(hay, to, b),
    decreases to - from,
{
    if from < to && from < hay.len() {
        lemma_next_byte_skip(hay, from + 1, to, b);
    } else if from < to {
        assert(next_byte(hay, from, b) is None);
        assert(next_byte(hay, to, b) is None);
    }
}

/// The first `needle` byte at or after `from`.
pub fn find_byte(hay: &[u8], from: usize, needle: u8) -> (r: Option<usize>)
    ensures
        r == (match next_byte(hay@, from as int, needle) {
            Some(i) => Some(i as usize),
            None => None,
        }),
{
    if from >= hay.len() {
        return None;
    }
    let rest = &hay[from..hay.len()];
    let r = memchr(needle, rest);
    proof {
        match r {
            Some(p) => {
                assert forall|t: int| from <= t < from + p && t < hay@.len() implies #[trigger] hay@[t]
                    != needle by {
                    assert(hay@[t] == rest@[t - from]);
                }
                lemma_next_byte_skip(hay@, from as int, from + p, needle);
                assert(rest@[p as int] == hay@[from + p]);
            },
            None => {
                assert forall|t: int| from <= t < hay@.len() implies #[trigger] hay@[t]
                    != needle by {
                    assert(hay@[t] == rest@[t - from]);
                }
                lemma_next_byte_skip(hay@, from as int, hay@.len() as int, needle);
            },
        }
    }
    match r {
        Some(p) => Some(from + p),
        None => None,
    }
}

/// Does `needle` occur in `hay` at `at`?
pub fn bytes_at(hay: &[u8], at: usize, needle: &[u8]) -> (b: bool)
    ensures
        b == occurs_at(hay@, at as int, needle@),
{
    if at > hay.len() || needle.len() > hay.len() - at {
        return false;
    }
    let mut i: usize = 0;
    while i < needle.len()
        invariant
            i <= needle@.len(),
            at + needle@.len() <= hay@.len(),
            hay@.len() == hay.len(),
            forall|t: int| 0 <= t < i ==> #[trigger] hay@[at + t] == needle@[t],
        decreases needle@.len() - i,
    {
        if hay[at + i] != needle[i] {
            assert(hay@.subrange(at as int, at + needle@.len())[i as int] != needle@[i as int]);
            return false;
        }
        i = i + 1;
    }
    assert forall|t: int| 0 <= t < needle@.len() implies #[trigger] hay@.subrange(
        at as int,
        at + needle@.len(),
    )[t] == needle@[t] by {
        assert(hay@[at + t] == needle@[t]);
    }
    assert(hay@.subrange(at as int, at + needle@.len()) =~= needle@);
    true
}

pub proof fn lemma_find_seq_skip(hay: Seq<u8>, from: int, to: int, needle: Seq<u8>)
    requires
        0 <= from <= to,
        needle.len() > 0,
        forall|t: int| from <= t < to && t < hay.len() ==> #[trigger] hay[t] != needle[0],
    ensures
        find_seq(hay, from, needle) == find_seq(hay, to, needle),
    decreases to - from,
{
    if from < to {
        if from + needle.len() <= hay.len() {
            assert(hay.subrange(from, from + needle.len())[0] == hay[from]);
        }
        lemma_find_seq_skip(hay, from + 1, to, needle);
        if from + needle.len() > hay.len() {
            lemma_find_seq_none(hay, to, needle);
        }
    }
}

pub proof fn lemma_find_seq_none(hay: Seq<u8>, from: int, needle: Seq<u8>)
    requires
        from + needle.len() > hay.len(),
    ensures
        find_seq(hay, from, needle) is None,
{
}

/// The first occurrence of `needle` at or after `from`.
pub fn find_bytes(hay: &[u8], from: usize, needle: &[u8]) -> (r: Option<usize>)
    ensures
        r == (match find_seq(hay@, from as int, needle@) {
            Some(i) => Some(i as usize),
            None => None,
        }),
{
    if needle.len() == 0 || from > hay.len() || needle.len() > hay.len() - from {
        return None;
    }
    let first = needle[0];
    let mut i = from;
    loop
        invariant
            from <= i <= hay@.len(),
            needle@.len() > 0,
            first == needle@[0],
            find_seq(hay@, from as int, needle@) == find_seq(hay@, i as int, needle@),
        decreases hay@.len() - i,
    {
        let rest = &hay[i..hay.len()];
        let off = memchr(first, rest);
        match off {
            None => {
                proof {
                    assert forall|t: int| i <= t < hay@.len() implies #[trigger] hay@[t]
                        != needle@[0] by {
                        assert(hay@[t] == rest@[t - i]);
                    }
                    lemma_find_seq_skip(hay@, i as int, hay@.len() as int, needle@);
                    lemma_find_seq_none(hay@, hay@.len() as int, needle@);
                }
                return None;
            },
            Some(p) => {
                let at = i + p;
                proof {
                    assert forall|t: int| i <= t < at && t < hay@.len() implies #[trigger] hay@[t]
                        != needle@[0] by {
                        assert(hay@[t] == rest@[t - i]);
                    }
                    lemma_find_seq_skip(hay@, i as int, at as int, needle@);
                }
                if bytes_at(hay, at, needle) {
                    return Some(at);
                }
                i = at + 1;
            },
        }
    }
}

pub open spec fn is_digit(b: u8) -> bool {
    0x30 <= b <= 0x39
}

/// Value of a run of decimal digits.
pub open spec fn digits_value(s: Seq<u8>) -> int
    decreases s.len(),
{
    if s.len() == 0 {
        0
    } else {
        digits_value(s.drop_last()) * 10 + (s.last() - 0x30)
    }
}

/// The text after an optional leading `+`.
pub open spec fn unsigned_part(s: Seq<u8>) -> Seq<u8> {
    if s.len() > 0 && s[0] == 0x2b {
        s.drop_first()
    } else {
        s
    }
}

pub open spec fn all_digits(d: Seq<u8>) -> bool {
    forall|i: int| 0 <= i < d.len() ==> is_digit(#[trigger] d[i])
}

/// `usize::from_str` on the text of the bytes: an optional `+`, then at least
/// one decimal digit and nothing else, with a value that fits.
pub open spec fn parse_usize_spec(s: Seq<u8>) -> Option<usize> {
    let d = unsigned_part(s);
    if d.len() == 0 || !all_digits(d) {
        None
    } else if digits_value(d) > usize::MAX {
        None
    } else {
        Some(digits_value(d) as usize)
    }
}

pub proof fn lemma_digits_value_nonneg(s: Seq<u8>)
    requires
        forall|i: int| 0 <= i < s.len() ==> is_digit(#[trigger] s[i]),
    ensures
        digits_value(s) >= 0,
        s.len() > 0 ==> digits_value(s) >= digits_value(s.drop_last()),
    decreases s.len(),
{
    if s.len() > 0 {
        assert(is_digit(s[s.len() - 1]));
        lemma_digits_value_nonneg(s.drop_last());
    }
}

/// Grows monotonically along prefixes.
pub proof fn lemma_digits_prefix(s: Seq<u8>, n: int)
    requires
        forall|i: int| 0 <= i < s.len() ==> is_digit(#[trigger] s[i]),
        0 <= n <= s.len(),
    ensures
        digits_value(s.take(n)) <= digits_value(s),
    decreases s.len() - n,
{
    if n < s.len() {
        lemma_digits_prefix(s, n + 1);
        assert(s.take(n + 1).drop_last() =~= s.take(n));
        lemma_digits_value_nonneg(s.take(n + 1));
    } else {
        assert(s.take(n) =~= s);
    }
}

/// Parses `s` as `usize::from_str` would.
pub fn parse_usize(s: &[u8]) -> (r: Option<usize>)
    ensures
        r == parse_usize_spec(s@),
{
    let ghost d = if s@.len() > 0 && s@[0] == 0x2b {
        s@.drop_first()
    } else {
        s@
    };
    let start: usize = if s.len() > 0 && s[0] == 0x2b {
        1
    } else {
        0
    };
    assert(d =~= s@.subrange(start as int, s@.len() as int));
    if start == s.len() {
        assert(d.len() == 0);
        return None;
    }
    let mut v: usize = 0;
    let mut i = start;
    let mut overflow = false;
    while i < s.len()
        invariant
            start <= i <= s@.len(),
            d == s@.subrange(start as int, s@.len() as int),
            d == (if s@.len() > 0 && s@[0] == 0x2b {
                s@.drop_first()
            } else {
                s@
            }),
            forall|t: int| start <= t < i ==> is_digit(#[trigger] s@[t]),
            !overflow ==> v == digits_value(d.take(i - start)),
            overflow ==> digits_value(d.take(i - start)) > usize::MAX,
        decreases s@.len() - i,
    {
        let b = s[i];
        if !(0x30 <= b && b <= 0x39) {
            assert(d[i - start] == b);
            assert(!is_digit(d[i - start]));
            return None;
        }
        proof {
            assert(d.take(i + 1 - start).drop_last() =~= d.take(i - start));
            assert(d.take(i + 1 - start).last() == b);
            assert forall|t: int| 0 <= t < d.take(i - start).len() implies is_digit(
                #[trigger] d.take(i - start)[t],
            ) by {
                assert(d.take(i - start)[t] == s@[start + t]);
            }
            lemma_digits_value_nonneg(d.take(i - start));
        }
        if !overflow {
            if v > (usize::MAX - (b - 0x30) as usize) / 10 {
                overflow = true;
            } else {
                v = v * 10 + (b - 0x30) as usize;
            }
        }
        i = i + 1;
    }
    assert(d.take(i - start) =~= d);
    if overflow {
        None
    } else {
        Some(v)
    }
}

} // verus!
