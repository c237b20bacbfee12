//! Pieces of the lenient worksheet XML reader: attributes, cell references,
//! XML entities and cell values.
use vstd::prelude::*;
use crate::bytes::{
    find_byte, find_bytes, find_seq, lemma_find_seq, lemma_next_byte, next_byte, occurs_at,
    bytes_at, parse_usize, parse_usize_spec, is_digit,
};
use crate::utf8::{char_from_u32, lossy_decoded, push_char, strict_text, utf8_lossy, utf8_strict};

verus! {

/// Value range of `key="..."` (or `key='...'`) found by scanning `tag` from
/// position `i`: the first place where `key=` is followed by a quote that is
/// closed later.
pub open spec fn attr_from(tag: Seq<u8>, key: Seq<u8>, i: int) -> Option<(int, int)>
    decreases tag.len() - i,
{
    if i < 0 || i + key.len() >= tag.len() {
        None
    } else {
        let q = i + key.len() + 1;
        let hit = occurs_at(tag, i, key) && tag[i + key.len()] == 0x3d && q < tag.len() && (tag[q]
            == 0x22 || tag[q] == 0x27);
        if hit && next_byte(tag, q + 1, tag[q]) is Some {
            Some((q + 1, next_byte(tag, q + 1, tag[q])->0))
        } else {
            attr_from(tag, key, i + 1)
        }
    }
}

pub open spec fn attr_spec(tag: Seq<u8>, key: Seq<u8>) -> Option<(int, int)> {
    attr_from(tag, key, 0)
}

pub proof fn lemma_attr_from(tag: Seq<u8>, key: Seq<u8>, i: int)
    ensures
        attr_from(tag, key, i) matches Some(r) ==> 0 <= r.0 <= r.1 < tag.len(),
    decreases tag.len() - i,
{
    if !(i < 0 || i + key.len() >= tag.len()) {
        let q = i + key.len() + 1;
        if q < tag.len() {
            lemma_next_byte(tag, q + 1, tag[q]);
        }
        lemma_attr_from(tag, key, i + 1);
    }
}

/// Reads a quoted attribute value (`key="..."` or `key='...'`), as a range
/// of `tag`.
pub fn attr_value(tag: &[u8], key: &[u8]) -> (r: Option<(usize, usize)>)
    ensures
        match r {
            Some(p) => attr_spec(tag@, key@) == Some((p.0 as int, p.1 as int)),
            None => attr_spec(tag@, key@) is None,
        },
        r matches Some(p) ==> p.0 <= p.1 < tag@.len(),
{
    let mut i: usize = 0;
    while key.len() < tag.len() && i < tag.len() - key.len()
        invariant
            attr_spec(tag@, key@) == attr_from(tag@, key@, i as int),
        decreases tag@.len() - i,
    {
        let klen = key.len();
        if bytes_at(tag, i, key) && tag[i + klen] == 0x3d {
            let q = i + klen + 1;
            if q < tag.len() && (tag[q] == 0x22 || tag[q] == 0x27) {
                let quote = tag[q];
                if let Some(e) = find_byte(tag, q + 1, quote) {
                    proof {
                        lemma_next_byte(tag@, q + 1, quote);
                    }
                    return Some((q + 1, e));
                }
            }
        }
        i = i + 1;
    }
    proof {
        lemma_attr_from(tag@, key@, i as int);
    }
    None
}

/// A cell reference's column, read from its leading letters.
#[derive(Clone, Copy, Debug, PartialEq)]
pub enum ColRef {
    NoLetters,
    Col(usize),
    Overflow,
}

pub open spec fn is_alpha(b: u8) -> bool {
    (0x41 <= b <= 0x5a) || (0x61 <= b <= 0x7a)
}

/// Value of a letter: `A`/`a` is 1 ... `Z`/`z` is 26.
pub open spec fn letter_value(b: u8) -> int {
    if 0x61 <= b <= 0x7a {
        b - 0x61 + 1
    } else {
        b - 0x41 + 1
    }
}

/// Number of leading ASCII letters.
pub open spec fn letters_len(s: Seq<u8>) -> nat
    decreases s.len(),
{
    if s.len() > 0 && is_alpha(s[0]) {
        1 + letters_len(s.drop_first())
    } else {
        0
    }
}

/// Base-26 value of letters (`A` = 1, `Z` = 26, `AA` = 27, ...).
pub open spec fn letters_value(s: Seq<u8>) -> int
    decreases s.len(),
{
    if s.len() == 0 {
        0
    } else {
        letters_value(s.drop_last()) * 26 + letter_value(s.last())
    }
}

/// Column of a reference such as `AB12`: the letters before the first
/// non-letter; a value too large for `usize` is an overflow.
pub open spec fn col_ref_spec(r: Seq<u8>) -> ColRef {
    let n = letters_len(r);
    if n == 0 {
        ColRef::NoLetters
    } else if letters_value(r.take(n as int)) > usize::MAX {
        ColRef::Overflow
    } else {
        ColRef::Col(letters_value(r.take(n as int)) as usize)
    }
}

pub proof fn lemma_letters_len(s: Seq<u8>)
    ensures
        letters_len(s) <= s.len(),
        forall|i: int| 0 <= i < letters_len(s) ==> is_alpha(#[trigger] s[i]),
        letters_len(s) < s.len() ==> !is_alpha(s[letters_len(s) as int]),
    decreases s.len(),
{
    if s.len() > 0 && is_alpha(s[0]) {
        lemma_letters_len(s.drop_first());
        assert forall|i: int| 0 <= i < letters_len(s) implies is_alpha(#[trigger] s[i]) by {
            if i > 0 {
                assert(s[i] == s.drop_first()[i - 1]);
            }
        }
    }
}

pub proof fn lemma_letters_len_is(s: Seq<u8>, n: nat)
    requires
        n <= s.len(),
        forall|t: int| 0 <= t < n ==> is_alpha(#[trigger] s[t]),
        n == s.len() || !is_alpha(s[n as int]),
    ensures
        letters_len(s) == n,
    decreases s.len(),
{
    if n > 0 {
        assert forall|t: int| 0 <= t < n - 1 implies is_alpha(#[trigger] s.drop_first()[t]) by {
            assert(s.drop_first()[t] == s[t + 1]);
        }
        if n < s.len() {
            assert(s.drop_first()[n - 1] == s[n as int]);
        }
        lemma_letters_len_is(s.drop_first(), (n - 1) as nat);
    }
}

pub proof fn lemma_letters_value_mono(s: Seq<u8>)
    requires
        forall|i: int| 0 <= i < s.len() ==> is_alpha(#[trigger] s[i]),
    ensures
        letters_value(s) >= 0,
        s.len() > 0 ==> letters_value(s) >= letters_value(s.drop_last()),
    decreases s.len(),
{
    if s.len() > 0 {
        assert(is_alpha(s[s.len() - 1]));
        lemma_letters_value_mono(s.drop_last());
    }
}

pub proof fn lemma_letters_value_prefix(s: Seq<u8>, n: int)
    requires
        forall|i: int| 0 <= i < s.len() ==> is_alpha(#[trigger] s[i]),
        0 <= n <= s.len(),
    ensures
        letters_value(s.take(n)) <= letters_value(s),
    decreases s.len() - n,
{
    if n < s.len() {
        lemma_letters_value_prefix(s, n + 1);
        assert(s.take(n + 1).drop_last() =~= s.take(n));
        assert forall|i: int| 0 <= i < s.take(n + 1).len() implies is_alpha(
            #[trigger] s.take(n + 1)[i],
        ) by {
            assert(s.take(n + 1)[i] == s[i]);
        }
        lemma_letters_value_mono(s.take(n + 1));
    } else {
        assert(s.take(n) =~= s);
    }
}

/// The column number of a cell reference such as `AB12`.
pub fn col_from_ref_bytes(cell_ref: &[u8]) -> (r: ColRef)
    ensures
        r == col_ref_spec(cell_ref@),
{
    let ghost s = cell_ref@;
    let mut n: usize = 0;
    while n < cell_ref.len() && ((0x41 <= cell_ref[n] && cell_ref[n] <= 0x5a) || (0x61
        <= cell_ref[n] && cell_ref[n] <= 0x7a))
        invariant
            n <= s.len(),
            s == cell_ref@,
            forall|t: int| 0 <= t < n ==> is_alpha(#[trigger] s[t]),
        decreases s.len() - n,
    {
        n = n + 1;
    }
    proof {
        lemma_letters_len_is(s, n as nat);
    }
    if n == 0 {
        return ColRef::NoLetters;
    }
    let ghost letters = s.take(n as int);
    assert forall|t: int| 0 <= t < letters.len() implies is_alpha(#[trigger] letters[t]) by {
        assert(letters[t] == s[t]);
    }
    let mut col: usize = 0;
    let mut i: usize = 0;
    while i < n
        invariant
            i <= n <= s.len(),
            s == cell_ref@,
            letters == s.take(n as int),
            letters_len(s) == n,
            forall|t: int| 0 <= t < letters.len() ==> is_alpha(#[trigger] letters[t]),
            col == letters_value(letters.take(i as int)),
        decreases n - i,
    {
        let b = cell_ref[i];
        assert(letters[i as int] == b);
        assert(is_alpha(b));
        let d: usize = if 0x61 <= b && b <= 0x7a {
            (b - 0x61 + 1) as usize
        } else {
            (b - 0x41 + 1) as usize
        };
        proof {
            assert(letters.take(i + 1).drop_last() =~= letters.take(i as int));
            assert(letters.take(i + 1).last() == b);
            assert(letters[i as int] == b);
            lemma_letters_value_prefix(letters, i + 1);
        }
        if col > (usize::MAX - d) / 26 {
            proof {
                let m = usize::MAX as int;
                assert(col * 26 + d > m) by (nonlinear_arith)
                    requires
                        col > (m - d) / 26,
                        0 <= d <= 26,
                ;
                assert(letter_value(b) == d);
                assert(letters_value(letters.take(i + 1)) == col * 26 + d);
                assert(letters_value(letters.take(i + 1)) > usize::MAX);
                lemma_letters_value_prefix(letters, i + 1);
                assert(letters.take(n as int) =~= letters);
            }
            return ColRef::Overflow;
        }
        col = col * 26 + d;
        i = i + 1;
    }
    assert(letters.take(n as int) =~= letters);
    ColRef::Col(col)
}

} // verus!

verus! {

/// Value of a digit in base 10 or 16 (either case), if it is one.
pub open spec fn digit_value(b: u8, radix: u32) -> Option<int> {
    if 0x30 <= b <= 0x39 {
        Some(b - 0x30)
    } else if radix == 16 && 0x61 <= b <= 0x66 {
        Some(b - 0x61 + 10)
    } else if radix == 16 && 0x41 <= b <= 0x46 {
        Some(b - 0x41 + 10)
    } else {
        None
    }
}

pub open spec fn all_radix_digits(d: Seq<u8>, radix: u32) -> bool {
    forall|i: int| 0 <= i < d.len() ==> digit_value(#[trigger] d[i], radix) is Some
}

pub open spec fn radix_value(d: Seq<u8>, radix: u32) -> int
    decreases d.len(),
{
    if d.len() == 0 {
        0
    } else {
        radix_value(d.drop_last(), radix) * radix + (match digit_value(d.last(), radix) {
            Some(v) => v,
            None => 0,
        })
    }
}

/// `u32::from_str_radix` (radix 10 or 16) on the text of the bytes: an
/// optional `+`, then at least one digit and nothing else, fitting in `u32`.
pub open spec fn parse_u32_spec(s: Seq<u8>, radix: u32) -> Option<u32> {
    let d = crate::bytes::unsigned_part(s);
    if d.len() == 0 || !all_radix_digits(d, radix) {
        None
    } else if radix_value(d, radix) > u32::MAX {
        None
    } else {
        Some(radix_value(d, radix) as u32)
    }
}

pub proof fn lemma_radix_value_mono(s: Seq<u8>, radix: u32)
    requires
        all_radix_digits(s, radix),
        radix == 10 || radix == 16,
    ensures
        radix_value(s, radix) >= 0,
        s.len() > 0 ==> radix_value(s, radix) >= radix_value(s.drop_last(), radix),
    decreases s.len(),
{
    if s.len() > 0 {
        assert(digit_value(s[s.len() - 1], radix) is Some);
        assert forall|i: int| 0 <= i < s.drop_last().len() implies digit_value(
            #[trigger] s.drop_last()[i],
            radix,
        ) is Some by {
            assert(s.drop_last()[i] == s[i]);
        }
        lemma_radix_value_mono(s.drop_last(), radix);
        let p = radix_value(s.drop_last(), radix);
        assert(p * radix >= p) by (nonlinear_arith)
            requires
                p >= 0,
                radix >= 1,
        ;
    }
}

pub proof fn lemma_radix_value_prefix(s: Seq<u8>, radix: u32, n: int)
    requires
        all_radix_digits(s, radix),
        radix == 10 || radix == 16,
        0 <= n <= s.len(),
    ensures
        radix_value(s.take(n), radix) <= radix_value(s, radix),
    decreases s.len() - n,
{
    if n < s.len() {
        lemma_radix_value_prefix(s, radix, n + 1);
        assert(s.take(n + 1).drop_last() =~= s.take(n));
        assert forall|i: int| 0 <= i < s.take(n + 1).len() implies digit_value(
            #[trigger] s.take(n + 1)[i],
            radix,
        ) is Some by {
            assert(s.take(n + 1)[i] == s[i]);
        }
        lemma_radix_value_mono(s.take(n + 1), radix);
    } else {
        assert(s.take(n) =~= s);
    }
}

fn digit_of(b: u8, radix: u32) -> (r: Option<u32>)
    ensures
        match r {
            Some(v) => digit_value(b, radix) == Some(v as int) && v < 16,
            None => digit_value(b, radix) is None,
        },
{
    if 0x30 <= b && b <= 0x39 {
        Some((b - 0x30) as u32)
    } else if radix == 16 && 0x61 <= b && b <= 0x66 {
        Some((b - 0x61 + 10) as u32)
    } else if radix == 16 && 0x41 <= b && b <= 0x46 {
        Some((b - 0x41 + 10) as u32)
    } else {
        None
    }
}

/// Parses the bytes as `u32::from_str_radix` would (radix 10 or 16).
pub fn parse_u32_radix(s: &[u8], radix: u32) -> (r: Option<u32>)
    requires
        radix == 10 || radix == 16,
    ensures
        r == parse_u32_spec(s@, radix),
{
    let ghost d = crate::bytes::unsigned_part(s@);
    let start: usize = if s.len() > 0 && s[0] == 0x2b {
        1
    } else {
        0
    };
    assert(d =~= s@.subrange(start as int, s@.len() as int));
    if start == s.len() {
        assert(d.len() == 0);
        return None;
    }
    let mut v: u32 = 0;
    let mut overflow = false;
    let mut i = start;
    while i < s.len()
        invariant
            radix == 10 || radix == 16,
            start <= i <= s@.len(),
            d == s@.subrange(start as int, s@.len() as int),
            d == crate::bytes::unsigned_part(s@),
            forall|t: int| start <= t < i ==> digit_value(#[trigger] s@[t], radix) is Some,
            !overflow ==> v == radix_value(d.take(i - start), radix),
            overflow ==> radix_value(d.take(i - start), radix) > u32::MAX,
        decreases s@.len() - i,
    {
        let b = s[i];
        let dv = digit_of(b, radix);
        match dv {
            None => {
                assert(d[i - start] == b);
                assert(!all_radix_digits(d, radix));
                return None;
            },
            Some(x) => {
                proof {
                    assert(d.take(i + 1 - start).drop_last() =~= d.take(i - start));
                    assert(d.take(i + 1 - start).last() == b);
                    assert forall|t: int| 0 <= t < d.take(i + 1 - start).len() implies digit_value(
                        #[trigger] d.take(i + 1 - start)[t],
                        radix,
                    ) is Some by {
                        assert(d.take(i + 1 - start)[t] == s@[start + t]);
                    }
                    lemma_radix_value_mono(d.take(i + 1 - start), radix);
                }
                if !overflow {
                    if v > (u32::MAX - x) / radix {
                        proof {
                            let m = u32::MAX as int;
                            assert(v * radix + x > m) by (nonlinear_arith)
                                requires
                                    v > (m - x) / radix as int,
                                    0 <= x,
                                    radix >= 1,
                            ;
                        }
                        overflow = true;
                    } else {
                        proof {
                            let m = u32::MAX as int;
                            assert(v * radix + x <= m) by (nonlinear_arith)
                                requires
                                    v <= (m - x) / radix as int,
                                    0 <= x <= m,
                                    radix >= 1,
                            ;
                        }
                        v = v * radix + x;
                    }
                }
            },
        }
        i = i + 1;
    }
    assert(d.take(i - start) =~= d);
    assert(all_radix_digits(d, radix)) by {
        assert forall|t: int| 0 <= t < d.len() implies digit_value(#[trigger] d[t], radix) is Some by {
            assert(d[t] == s@[start + t]);
        }
    }
    if overflow {
        None
    } else {
        Some(v)
    }
}

/// Code point named by a numeric entity body (`#x41`, `#X41` or `#65`).
pub open spec fn entity_code(e: Seq<u8>) -> Option<u32> {
    let hex = if e.len() >= 2 && e[0] == 0x23 && (e[1] == 0x78 || e[1] == 0x58) {
        parse_u32_spec(e.skip(2), 16)
    } else {
        None
    };
    match hex {
        Some(v) => Some(v),
        None => if e.len() >= 1 && e[0] == 0x23 {
            parse_u32_spec(e.skip(1), 10)
        } else {
            None
        },
    }
}

pub open spec fn is_scalar_code(u: u32) -> bool {
    u < 0x110000 && !(0xD800 <= u <= 0xDFFF)
}

/// The character an entity body (between `&` and `;`) stands for; an unknown
/// entity gives `&`.
pub open spec fn entity_char(e: Seq<u8>) -> char {
    if e == seq![0x61u8, 0x6d, 0x70] {
        '&'
    } else if e == seq![0x6cu8, 0x74] {
        '<'
    } else if e == seq![0x67u8, 0x74] {
        '>'
    } else if e == seq![0x71u8, 0x75, 0x6f, 0x74] {
        '"'
    } else if e == seq![0x61u8, 0x70, 0x6f, 0x73] {
        '\''
    } else {
        match entity_code(e) {
            Some(u) => if is_scalar_code(u) {
                u as char
            } else {
                '&'
            },
            None => '&',
        }
    }
}

/// Entity decoding from position `i`: each `&...;` is replaced by the
/// character it names, and the bytes between entities are taken as lossy
/// UTF-8 text. An `&` with no `;` after it, and all that follows it, stay as
/// they are.
pub open spec fn unescape_from(t: Seq<u8>, i: int) -> Seq<char>
    decreases t.len() - i,
{
    if i < 0 || i >= t.len() {
        seq![]
    } else {
        match next_byte(t, i, 0x26) {
            None => lossy_decoded(t.subrange(i, t.len() as int)),
            Some(a) => match next_byte(t, a + 1, 0x3b) {
                None => lossy_decoded(t.subrange(i, t.len() as int)),
                Some(e) => {
                    proof {
                        lemma_next_byte(t, i, 0x26);
                        lemma_next_byte(t, a + 1, 0x3b);
                    }
                    plain_run(t, i, a) + seq![entity_char(t.subrange(a + 1, e))] + unescape_from(
                        t,
                        e + 1,
                    )
                },
            },
        }
    }
}

/// The text of the bytes from `i` up to `a`, none when the run is empty.
pub open spec fn plain_run(t: Seq<u8>, i: int, a: int) -> Seq<char> {
    if i < a {
        lossy_decoded(t.subrange(i, a))
    } else {
        seq![]
    }
}

/// What `unescape` makes of a run of bytes.
pub open spec fn unescape_spec(t: Seq<u8>) -> Seq<char> {
    if next_byte(t, 0, 0x26) is None {
        lossy_decoded(t)
    } else {
        unescape_from(t, 0)
    }
}

pub(crate) fn is_word(e: &[u8], w: &[u8]) -> (b: bool)
    ensures
        b == (e@ == w@),
{
    if e.len() != w.len() {
        return false;
    }
    let r = bytes_at(e, 0, w);
    proof {
        if r {
            assert(e@.subrange(0, w@.len() as int) =~= e@);
        } else {
            assert(e@.subrange(0, w@.len() as int) =~= e@);
        }
    }
    r
}

fn entity_char_of(e: &[u8]) -> (c: char)
    ensures
        c == entity_char(e@),
{
    let amp: [u8; 3] = [0x61, 0x6d, 0x70];
    let lt: [u8; 2] = [0x6c, 0x74];
    let gt: [u8; 2] = [0x67, 0x74];
    let quot: [u8; 4] = [0x71, 0x75, 0x6f, 0x74];
    let apos: [u8; 4] = [0x61, 0x70, 0x6f, 0x73];
    assert(amp@ =~= seq![0x61u8, 0x6d, 0x70]);
    assert(lt@ =~= seq![0x6cu8, 0x74]);
    assert(gt@ =~= seq![0x67u8, 0x74]);
    assert(quot@ =~= seq![0x71u8, 0x75, 0x6f, 0x74]);
    assert(apos@ =~= seq![0x61u8, 0x70, 0x6f, 0x73]);
    if is_word(e, amp.as_slice()) {
        return '&';
    }
    if is_word(e, lt.as_slice()) {
        return '<';
    }
    if is_word(e, gt.as_slice()) {
        return '>';
    }
    if is_word(e, quot.as_slice()) {
        return '"';
    }
    if is_word(e, apos.as_slice()) {
        return '\'';
    }
    let mut code: Option<u32> = None;
    if e.len() >= 2 && e[0] == 0x23 && (e[1] == 0x78 || e[1] == 0x58) {
        code = parse_u32_radix(&e[2..e.len()], 16);
        assert(e@.subrange(2, e@.len() as int) =~= e@.skip(2));
    }
    if code.is_none() && e.len() >= 1 && e[0] == 0x23 {
        code = parse_u32_radix(&e[1..e.len()], 10);
        assert(e@.subrange(1, e@.len() as int) =~= e@.skip(1));
    }
    assert(code == entity_code(e@));
    match code {
        Some(u) => match char_from_u32(u) {
            Some(c) => {
                proof {
                    vstd::utf8::char_u32_cast(c, u);
                }
                c
            },
            None => '&',
        },
        None => '&',
    }
}

/// Decodes XML entities into a `String`: every `&name;` or `&#code;` is
/// replaced by its character (an unknown one by `&`), and the text around
/// them is decoded as lossy UTF-8.
pub fn unescape(text: &[u8]) -> (r: String)
    ensures
        r@ == unescape_spec(text@),
{
    if find_byte(text, 0, 0x26).is_none() {
        return utf8_lossy(text);
    }
    let mut out = String::new();
    let mut i: usize = 0;
    while i < text.len()
        invariant
            i <= text@.len(),
            next_byte(text@, 0, 0x26) is Some,
            unescape_from(text@, 0) == out@ + unescape_from(text@, i as int),
        decreases text@.len() - i,
    {
        let amp = find_byte(text, i, 0x26);
        proof {
            lemma_next_byte(text@, i as int, 0x26);
        }
        let semi = match amp {
            Some(a) => {
                let e = find_byte(text, a + 1, 0x3b);
                proof {
                    lemma_next_byte(text@, a + 1, 0x3b);
                }
                e
            },
            None => None,
        };
        match (amp, semi) {
            (Some(a), Some(e)) => {
                let ghost before = out@;
                if i < a {
                    let run = utf8_lossy(&text[i..a]);
                    out.append(run.as_str());
                }
                let c = entity_char_of(&text[a + 1..e]);
                push_char(&mut out, c);
                proof {
                    assert(out@ =~= before + plain_run(text@, i as int, a as int) + seq![
                        entity_char(text@.subrange(a + 1, e as int)),
                    ]);
                    assert(before + unescape_from(text@, i as int) =~= out@ + unescape_from(
                        text@,
                        e + 1,
                    ));
                }
                i = e + 1;
            },
            _ => {
                let rest = utf8_lossy(&text[i..text.len()]);
                out.append(rest.as_str());
                proof {
                    assert(unescape_from(text@, i as int) == lossy_decoded(
                        text@.subrange(i as int, text@.len() as int),
                    ));
                    assert(unescape_from(text@, 0) == out@);
                }
                return out;
            },
        }
    }
    assert(unescape_from(text@, i as int) =~= Seq::<char>::empty());
    assert(out@ + Seq::<char>::empty() =~= out@);
    out
}

} // verus!

verus! {

pub open spec fn open_t() -> Seq<u8> {
    seq![0x3cu8, 0x74]
}

pub open spec fn close_t() -> Seq<u8> {
    seq![0x3cu8, 0x2f, 0x74]
}

pub open spec fn open_v() -> Seq<u8> {
    seq![0x3cu8, 0x76]
}

pub open spec fn close_v() -> Seq<u8> {
    seq![0x3cu8, 0x2f, 0x76]
}

/// The text between an opening tag (found from `from`) and the next closing
/// tag, as `(start, end, next)`, `next` being just after the closing tag.
pub open spec fn between_spec(hay: Seq<u8>, from: int, open: Seq<u8>, close: Seq<u8>) -> Option<
    (int, int, int),
> {
    match find_seq(hay, from, open) {
        None => None,
        Some(os) => match next_byte(hay, os, 0x3e) {
            None => None,
            Some(oe) => match find_seq(hay, oe + 1, close) {
                None => None,
                Some(ce) => Some((oe + 1, ce, ce + close.len())),
            },
        },
    }
}

pub proof fn lemma_between(hay: Seq<u8>, from: int, open: Seq<u8>, close: Seq<u8>)
    ensures
        between_spec(hay, from, open, close) matches Some(r) ==> from < r.0 <= r.1 && r.1
            + close.len() == r.2 <= hay.len() && r.1 < hay.len() && close.len() > 0,
{
    lemma_find_seq(hay, from, open);
    if let Some(os) = find_seq(hay, from, open) {
        lemma_next_byte(hay, os, 0x3e);
        if let Some(oe) = next_byte(hay, os, 0x3e) {
            lemma_find_seq(hay, oe + 1, close);
        }
    }
}

/// Returns the text between an opening tag and its closing tag, with the
/// position just after the closing tag.
pub fn text_between(hay: &[u8], from: usize, open: &[u8], close: &[u8]) -> (r: Option<
    ((usize, usize), usize),
>)
    ensures
        match r {
            Some(x) => between_spec(hay@, from as int, open@, close@) == Some(
                (x.0.0 as int, x.0.1 as int, x.1 as int),
            ),
            None => between_spec(hay@, from as int, open@, close@) is None,
        },
        r matches Some(x) ==> x.0.0 <= x.0.1 <= hay@.len() && x.1 <= hay@.len(),
{
    let n = hay.len();
    proof {
        lemma_between(hay@, from as int, open@, close@);
        lemma_find_seq(hay@, from as int, open@);
    }
    let os = match find_bytes(hay, from, open) {
        Some(v) => v,
        None => return None,
    };
    assert(find_seq(hay@, from as int, open@) == Some(os as int));
    proof {
        lemma_next_byte(hay@, os as int, 0x3e);
    }
    let oe = match find_byte(hay, os, 0x3e) {
        Some(v) => v,
        None => return None,
    };
    assert(next_byte(hay@, os as int, 0x3e) == Some(oe as int));
    assert(oe < n);
    let start = oe + 1;
    proof {
        lemma_find_seq(hay@, start as int, close@);
    }
    let ce = match find_bytes(hay, start, close) {
        Some(v) => v,
        None => return None,
    };
    assert(find_seq(hay@, start as int, close@) == Some(ce as int));
    Some(((start, ce), ce + close.len()))
}

#[derive(Clone, Copy, Debug, PartialEq)]
pub enum CellKind {
    Shared,
    Inline,
    Str,
    Number,
}

/// Kind of a cell from its `t` attribute: `s`, `inlineStr`, `str`, or a number.
pub open spec fn kind_spec(tag: Seq<u8>) -> CellKind {
    match attr_spec(tag, seq![0x74u8]) {
        Some(r) => {
            let v = tag.subrange(r.0, r.1);
            if v == seq![0x73u8] {
                CellKind::Shared
            } else if v == seq![0x69u8, 0x6e, 0x6c, 0x69, 0x6e, 0x65, 0x53, 0x74, 0x72] {
                CellKind::Inline
            } else if v == seq![0x73u8, 0x74, 0x72] {
                CellKind::Str
            } else {
                CellKind::Number
            }
        },
        None => CellKind::Number,
    }
}

pub fn cell_kind(tag: &[u8]) -> (k: CellKind)
    ensures
        k == kind_spec(tag@),
{
    let t_key: [u8; 1] = [0x74];
    assert(t_key@ =~= seq![0x74u8]);
    match attr_value(tag, t_key.as_slice()) {
        Some((a, b)) => {
            let v = &tag[a..b];
            let s_w: [u8; 1] = [0x73];
            let inline_w: [u8; 9] = [0x69, 0x6e, 0x6c, 0x69, 0x6e, 0x65, 0x53, 0x74, 0x72];
            let str_w: [u8; 3] = [0x73, 0x74, 0x72];
            assert(s_w@ =~= seq![0x73u8]);
            assert(inline_w@ =~= seq![0x69u8, 0x6e, 0x6c, 0x69, 0x6e, 0x65, 0x53, 0x74, 0x72]);
            assert(str_w@ =~= seq![0x73u8, 0x74, 0x72]);
            if is_word(v, s_w.as_slice()) {
                CellKind::Shared
            } else if is_word(v, inline_w.as_slice()) {
                CellKind::Inline
            } else if is_word(v, str_w.as_slice()) {
                CellKind::Str
            } else {
                CellKind::Number
            }
        },
        None => CellKind::Number,
    }
}

/// Strict UTF-8 text (empty when invalid) when there is no `&`, otherwise the
/// entity-decoded text.
pub open spec fn plain_or_unescaped(t: Seq<u8>) -> Seq<char> {
    if next_byte(t, 0, 0x26) is None {
        match strict_text(t) {
            Some(s) => s,
            None => seq![],
        }
    } else {
        unescape_spec(t)
    }
}

/// All `<t>` runs from `pos` on, decoded and joined.
pub open spec fn all_runs(c: Seq<u8>, pos: int) -> Seq<char>
    decreases c.len() - pos,
{
    match between_spec(c, pos, open_t(), close_t()) {
        None => seq![],
        Some(r) => {
            proof {
                lemma_between(c, pos, open_t(), close_t());
            }
            unescape_spec(c.subrange(r.0, r.1)) + all_runs(c, r.2)
        },
    }
}

/// Index of a shared string (`usize::MAX` when the text is not a number).
pub open spec fn shared_index(c: Seq<u8>) -> usize {
    let v = match between_spec(c, 0, open_v(), close_v()) {
        Some(r) => c.subrange(r.0, r.1),
        None => seq![],
    };
    match parse_usize_spec(v) {
        Some(i) => i,
        None => usize::MAX,
    }
}

/// A cell's value from its inner content.
pub open spec fn cell_value_spec(c: Seq<u8>, kind: CellKind, sst: Seq<Seq<char>>) -> Seq<char> {
    match kind {
        CellKind::Inline => match between_spec(c, 0, open_t(), close_t()) {
            None => seq![],
            Some(r) => if find_seq(c, r.2, open_t()) is None {
                plain_or_unescaped(c.subrange(r.0, r.1))
            } else {
                all_runs(c, 0)
            },
        },
        CellKind::Shared => {
            let i = shared_index(c);
            if i < sst.len() {
                sst[i as int]
            } else {
                seq![]
            }
        },
        _ => match between_spec(c, 0, open_v(), close_v()) {
            None => seq![],
            Some(r) => plain_or_unescaped(c.subrange(r.0, r.1)),
        },
    }
}

fn plain_or_unescape(t: &[u8]) -> (r: String)
    ensures
        r@ == plain_or_unescaped(t@),
{
    if find_byte(t, 0, 0x26).is_none() {
        match utf8_strict(t) {
            Some(s) => s,
            None => String::new(),
        }
    } else {
        unescape(t)
    }
}

pub open spec fn strings_view(v: Seq<String>) -> Seq<Seq<char>> {
    v.map_values(|s: String| s@)
}

/// Extracts a cell's value from its inner content.
pub fn cell_value(content: &[u8], kind: CellKind, sst: &Vec<String>) -> (r: String)
    ensures
        r@ == cell_value_spec(content@, kind, strings_view(sst@)),
{
    let ot: [u8; 2] = [0x3c, 0x74];
    let ct: [u8; 3] = [0x3c, 0x2f, 0x74];
    let ov: [u8; 2] = [0x3c, 0x76];
    let cv: [u8; 3] = [0x3c, 0x2f, 0x76];
    assert(ot@ =~= open_t());
    assert(ct@ =~= close_t());
    assert(ov@ =~= open_v());
    assert(cv@ =~= close_v());
    match kind {
        CellKind::Inline => {
            let ((a, b), next) = match text_between(content, 0, ot.as_slice(), ct.as_slice()) {
                Some(x) => x,
                None => return String::new(),
            };
            if find_bytes(content, next, ot.as_slice()).is_none() {
                plain_or_unescape(&content[a..b])
            } else {
                let mut out = String::new();
                let mut pos: usize = 0;
                assert(cell_value_spec(content@, kind, strings_view(sst@)) == all_runs(content@, 0));
                loop
                    invariant
                        pos <= content@.len(),
                        cell_value_spec(content@, kind, strings_view(sst@)) == all_runs(content@, 0),
                        ot@ == open_t(),
                        ct@ == close_t(),
                        all_runs(content@, 0) == out@ + all_runs(content@, pos as int),
                    decreases content@.len() - pos,
                {
                    match text_between(content, pos, ot.as_slice(), ct.as_slice()) {
                        Some(((x, y), nxt)) => {
                            proof {
                                lemma_between(content@, pos as int, open_t(), close_t());
                            }
                            let run = unescape(&content[x..y]);
                            let ghost before = out@;
                            out.append(run.as_str());
                            proof {
                                assert(before + all_runs(content@, pos as int) =~= out@ + all_runs(
                                    content@,
                                    nxt as int,
                                ));
                            }
                            pos = nxt;
                        },
                        None => {
                            assert(out@ + Seq::<char>::empty() =~= out@);
                            return out;
                        },
                    }
                }
            }
        },
        CellKind::Shared => {
            let value: &[u8] = match text_between(content, 0, ov.as_slice(), cv.as_slice()) {
                Some(((x, y), _)) => &content[x..y],
                None => &content[0..0],
            };
            assert(content@.subrange(0, 0) =~= Seq::<u8>::empty());
            let index = match parse_usize(value) {
                Some(i) => i,
                None => usize::MAX,
            };
            if index < sst.len() {
                sst[index].clone()
            } else {
                String::new()
            }
        },
        _ => match text_between(content, 0, ov.as_slice(), cv.as_slice()) {
            Some(((x, y), _)) => plain_or_unescape(&content[x..y]),
            None => String::new(),
        },
    }
}

} // verus!
