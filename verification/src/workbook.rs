//! Workbook files: which paths are spreadsheets, the sheet names listed in
//! `xl/workbook.xml`, and where a sheet's XML lives inside the archive.
use vstd::prelude::*;
use crate::sheet_xml::is_word;
use crate::text::{decimal, push_decimal, texts};
use crate::utf8::{lossy_decoded, strict_text, utf8_lossy, utf8_strict};
use quick_xml::events::Event;
use crate::matching::mode_spec;
use crate::preview::{grid_preview_spec, opt_view, preview_from_grid, preview_from_sheet_xml, sheet_preview_spec};
use crate::sheet_xml::strings_view;
use crate::types::{grid_view, preview_view, PreviewResponse, PreviewView};

verus! {

// ---------------------------------------------------------------------------
// File extensions

/// What `std::path::Path::extension` gives for the path, as text. It
/// depends on the path syntax of the platform the library is built for
/// (which characters separate components), and on nothing else.
pub uninterp spec fn path_extension(path: Seq<char>) -> Option<Seq<char>>;

/// What `str::to_lowercase` gives (full Unicode lower-casing).
pub uninterp spec fn unicode_lower(s: Seq<char>) -> Seq<char>;

/// `Path::new(path).extension()`, as text. A path given as `&str` has a
/// UTF-8 extension, so the conversion back to `str` always succeeds.
#[verifier::external_body]
fn file_extension(path: &str) -> (r: Option<String>)
    ensures
        match r {
            Some(e) => path_extension(path@) == Some(e@),
            None => path_extension(path@) is None,
        },
{
    std::path::Path::new(path).extension().and_then(|e| e.to_str()).map(|e| e.to_string())
}

/// `str::to_lowercase`.
#[verifier::external_body]
pub(crate) fn to_lowercase(s: &str) -> (r: String)
    ensures
        r@ == unicode_lower(s@),
{
    s.to_lowercase()
}

/// The lower-cased extension of a path, empty where it has none.
pub open spec fn lower_extension(path: Seq<char>) -> Seq<char> {
    match path_extension(path) {
        Some(e) => unicode_lower(e),
        None => seq![],
    }
}

fn extension_lowered(path: &str) -> (r: String)
    ensures
        r@ == lower_extension(path@),
{
    match file_extension(path) {
        Some(e) => to_lowercase(e.as_str()),
        None => String::new(),
    }
}

/// `s` is the word `w`.
pub(crate) fn same_text(s: &str, w: &str) -> (b: bool)
    ensures
        b == (s@ == w@),
{
    let a = s.to_owned();
    let c = w.to_owned();
    a == c
}

/// The extensions of the workbooks the index covers.
pub open spec fn supported_extension(e: Seq<char>) -> bool {
    e == "xlsx"@ || e == "xlsm"@ || e == "xls"@
}

/// Whether a path names a workbook the index covers: its extension,
/// lower-cased, is `xlsx`, `xlsm` or `xls`.
pub fn is_supported(path: &str) -> (r: bool)
    ensures
        r == (path_extension(path@) is Some && supported_extension(lower_extension(path@))),
{
    match file_extension(path) {
        None => false,
        Some(e) => {
            let l = to_lowercase(e.as_str());
            same_text(l.as_str(), "xlsx") || same_text(l.as_str(), "xlsm") || same_text(
                l.as_str(),
                "xls",
            )
        },
    }
}

/// Whether a sheet of this file is previewed from its worksheet XML
/// (`xlsx` and `xlsm`); other files go through the general workbook reader.
pub fn streams_preview(filepath: &str) -> (r: bool)
    ensures
        r == (lower_extension(filepath@) == "xlsx"@ || lower_extension(filepath@) == "xlsm"@),
{
    let l = extension_lowered(filepath);
    same_text(l.as_str(), "xlsx") || same_text(l.as_str(), "xlsm")
}

/// Files above this size (200 MB) are left out of the deep index.
pub open spec fn deep_index_limit() -> int {
    200int * 1024 * 1024
}

/// Whether a file of `size` bytes is too large for the deep index.
pub fn exceeds_deep_index_limit(size: u64) -> (r: bool)
    ensures
        r == (size > deep_index_limit()),
{
    size > 200 * 1024 * 1024
}

} // verus!

verus! {

// ---------------------------------------------------------------------------
// Sheet names from `xl/workbook.xml`

/// Group 1 of each match of `pattern` in `hay`, in order, as
/// `regex::bytes::Regex::new(pattern)` and `captures_iter` report them;
/// `None` where the pattern does not compile.
pub uninterp spec fn regex_group_one(pattern: Seq<char>, hay: Seq<u8>) -> Option<Seq<Seq<u8>>>;

pub open spec fn byte_lists(v: Seq<Vec<u8>>) -> Seq<Seq<u8>> {
    v.map_values(|b: Vec<u8>| b@)
}

/// Compiles `pattern` with `regex::bytes::Regex::new` and collects group 1 of
/// every capture `captures_iter` yields over `hay`.
#[verifier::external_body]
fn captures_group_one(pattern: &str, hay: &[u8]) -> (r: Option<Vec<Vec<u8>>>)
    ensures
        match r {
            Some(v) => regex_group_one(pattern@, hay@) == Some(byte_lists(v@)),
            None => regex_group_one(pattern@, hay@) is None,
        },
{
    let re = regex::bytes::Regex::new(pattern).ok()?;
    Some(re.captures_iter(hay).filter_map(|c| c.get(1)).map(|m| m.as_bytes().to_vec()).collect())
}

/// A `<sheet ...>` tag of the workbook part and its `name="..."` attribute.
pub open spec fn sheet_name_pattern() -> Seq<char> {
    "<sheet\\s[^>]*?name=\"([^\"]*)"@
}

/// The captured names that are valid UTF-8, decoded, in order.
pub open spec fn utf8_names(caps: Seq<Seq<u8>>) -> Seq<Seq<char>>
    decreases caps.len(),
{
    if caps.len() == 0 {
        seq![]
    } else {
        let rest = utf8_names(caps.drop_last());
        match strict_text(caps.last()) {
            Some(t) => rest.push(t),
            None => rest,
        }
    }
}

/// The sheet names the workbook part lists.
pub open spec fn workbook_names_spec(xml: Seq<u8>) -> Seq<Seq<char>> {
    match regex_group_one(sheet_name_pattern(), xml) {
        Some(caps) => utf8_names(caps),
        None => seq![],
    }
}

/// The sheet names listed in the workbook part `xl/workbook.xml`.
pub fn workbook_sheet_names(xml: &[u8]) -> (r: Vec<String>)
    ensures
        texts(r@) == workbook_names_spec(xml@),
{
    let pattern = "<sheet\\s[^>]*?name=\"([^\"]*)";
    let caps = match captures_group_one(pattern, xml) {
        Some(c) => c,
        None => return Vec::new(),
    };
    let ghost cv = byte_lists(caps@);
    let mut out: Vec<String> = Vec::new();
    let mut i: usize = 0;
    while i < caps.len()
        invariant
            i <= caps@.len(),
            cv == byte_lists(caps@),
            regex_group_one(sheet_name_pattern(), xml@) == Some(cv),
            texts(out@) == utf8_names(cv.take(i as int)),
        decreases caps@.len() - i,
    {
        assert(cv.take(i + 1).drop_last() =~= cv.take(i as int));
        let ghost before = texts(out@);
        match utf8_strict(caps[i].as_slice()) {
            Some(s) => {
                let ghost sv = s@;
                out.push(s);
                assert(texts(out@) =~= before.push(sv));
            },
            None => {},
        }
        i = i + 1;
    }
    assert(cv.take(i as int) =~= cv);
    out
}

/// Where the sheet names of a workbook come from when read directly from the
/// archive: `None` sends the caller to the general workbook reader, which is
/// what happens for `.xls` files, when `xl/workbook.xml` could not be read
/// (`workbook_xml` is `None`), and when it lists no sheet.
pub open spec fn sheet_names_spec(filepath: Seq<char>, workbook_xml: Option<Seq<u8>>) -> Option<
    Seq<Seq<char>>,
> {
    if lower_extension(filepath) == "xls"@ {
        None
    } else {
        match workbook_xml {
            None => None,
            Some(x) => if workbook_names_spec(x).len() > 0 {
                Some(workbook_names_spec(x))
            } else {
                None
            },
        }
    }
}

pub open spec fn opt_bytes(x: Option<&[u8]>) -> Option<Seq<u8>> {
    match x {
        Some(b) => Some(b@),
        None => None,
    }
}

/// The sheet names of a workbook, from its `xl/workbook.xml` part where that
/// part was read; `None` where the general workbook reader must list them.
pub fn sheet_names(filepath: &str, workbook_xml: Option<&[u8]>) -> (r: Option<Vec<String>>)
    ensures
        match r {
            Some(v) => sheet_names_spec(filepath@, opt_bytes(workbook_xml)) == Some(texts(v@)),
            None => sheet_names_spec(filepath@, opt_bytes(workbook_xml)) is None,
        },
{
    let ext = extension_lowered(filepath);
    if same_text(ext.as_str(), "xls") {
        return None;
    }
    match workbook_xml {
        None => None,
        Some(x) => {
            let names = workbook_sheet_names(x);
            if names.len() > 0 {
                Some(names)
            } else {
                None
            }
        },
    }
}

} // verus!

verus! {

// ---------------------------------------------------------------------------
// Tags of the workbook and relationship parts

/// A start or empty-element tag: its local name and its attributes (local
/// name, raw value), in document order.
#[derive(Clone, Debug, PartialEq)]
pub struct XmlTag {
    pub name: Vec<u8>,
    pub attrs: Vec<(Vec<u8>, Vec<u8>)>,
}

pub type TagView = (Seq<u8>, Seq<(Seq<u8>, Seq<u8>)>);

pub open spec fn attrs_view(a: Seq<(Vec<u8>, Vec<u8>)>) -> Seq<(Seq<u8>, Seq<u8>)> {
    a.map_values(|p: (Vec<u8>, Vec<u8>)| (p.0@, p.1@))
}

pub open spec fn tag_view(t: XmlTag) -> TagView {
    (t.name@, attrs_view(t.attrs@))
}

pub open spec fn tags_view(v: Seq<XmlTag>) -> Seq<TagView> {
    v.map_values(|t: XmlTag| tag_view(t))
}

/// The start and empty-element tags that `quick_xml::Reader::read_event`
/// reports for the document, up to its end or its first error, with the
/// attributes each tag's `attributes()` yields without error.
pub uninterp spec fn xml_tags(xml: Seq<u8>, trim_text: bool) -> Seq<TagView>;

/// Reads the document with a `quick_xml::Reader` over the bytes and collects
/// its start and empty-element tags until the end or the first error.
#[verifier::external_body]
fn read_tags(xml: &[u8], trim_text: bool) -> (r: Vec<XmlTag>)
    ensures
        tags_view(r@) == xml_tags(xml@, trim_text),
{
    let mut reader = quick_xml::Reader::from_reader(xml);
    reader.config_mut().trim_text(trim_text);
    let mut out = Vec::new();
    loop {
        match reader.read_event() {
            Ok(Event::Start(e)) | Ok(Event::Empty(e)) => out.push(XmlTag {
                name: e.local_name().as_ref().to_vec(),
                attrs: e.attributes().filter_map(Result::ok).map(|a| (a.key.local_name().as_ref().to_vec(), a.value.to_vec())).collect(),
            }),
            Ok(Event::Eof) | Err(_) => return out,
            _ => {},
        }
    }
}

/// The value of the first attribute with this local name.
pub open spec fn attr_of(attrs: Seq<(Seq<u8>, Seq<u8>)>, key: Seq<u8>) -> Option<Seq<u8>>
    decreases attrs.len(),
{
    if attrs.len() == 0 {
        None
    } else if attrs[0].0 == key {
        Some(attrs[0].1)
    } else {
        attr_of(attrs.drop_first(), key)
    }
}

/// The value of the first attribute with this local name, as lossy text.
pub open spec fn attr_text(attrs: Seq<(Seq<u8>, Seq<u8>)>, key: Seq<u8>) -> Option<Seq<char>> {
    match attr_of(attrs, key) {
        Some(v) => Some(lossy_decoded(v)),
        None => None,
    }
}

fn find_attr(attrs: &Vec<(Vec<u8>, Vec<u8>)>, key: &[u8]) -> (r: Option<String>)
    ensures
        match r {
            Some(s) => attr_text(attrs_view(attrs@), key@) == Some(s@),
            None => attr_text(attrs_view(attrs@), key@) is None,
        },
{
    let ghost av = attrs_view(attrs@);
    let mut i: usize = 0;
    assert(av.skip(0) =~= av);
    while i < attrs.len()
        invariant
            i <= attrs@.len(),
            av == attrs_view(attrs@),
            attr_of(av, key@) == attr_of(av.skip(i as int), key@),
        decreases attrs@.len() - i,
    {
        assert(av.skip(i as int).drop_first() =~= av.skip(i + 1));
        if is_word(attrs[i].0.as_slice(), key) {
            return Some(utf8_lossy(attrs[i].1.as_slice()));
        }
        i = i + 1;
    }
    None
}

pub open spec fn word_sheet() -> Seq<u8> {
    seq![0x73u8, 0x68, 0x65, 0x65, 0x74]
}

pub open spec fn word_name() -> Seq<u8> {
    seq![0x6eu8, 0x61, 0x6d, 0x65]
}

pub open spec fn word_id() -> Seq<u8> {
    seq![0x69u8, 0x64]
}

pub open spec fn word_relationship() -> Seq<u8> {
    seq![0x52u8, 0x65, 0x6c, 0x61, 0x74, 0x69, 0x6f, 0x6e, 0x73, 0x68, 0x69, 0x70]
}

pub open spec fn word_cap_id() -> Seq<u8> {
    seq![0x49u8, 0x64]
}

pub open spec fn word_target() -> Seq<u8> {
    seq![0x54u8, 0x61, 0x72, 0x67, 0x65, 0x74]
}

/// The relationship id (`r:id`) of the sheet named `name`, scanning the
/// `sheet` tags from the `i`-th tag on; a `sheet` tag without a `name`
/// ends the search with nothing.
pub open spec fn sheet_rid_from(tags: Seq<TagView>, i: int, name: Seq<char>) -> Option<Seq<char>>
    decreases tags.len() - i,
{
    if i < 0 || i >= tags.len() {
        None
    } else if tags[i].0 == word_sheet() {
        match attr_text(tags[i].1, word_name()) {
            None => None,
            Some(n) => if n == name {
                attr_text(tags[i].1, word_id())
            } else {
                sheet_rid_from(tags, i + 1, name)
            },
        }
    } else {
        sheet_rid_from(tags, i + 1, name)
    }
}

/// The relationship id of the sheet named `sheet_name` in the workbook part.
pub fn workbook_sheet_r_id(workbook_xml: &[u8], sheet_name: &str) -> (r: Option<String>)
    ensures
        match r {
            Some(s) => sheet_rid_from(xml_tags(workbook_xml@, true), 0, sheet_name@) == Some(s@),
            None => sheet_rid_from(xml_tags(workbook_xml@, true), 0, sheet_name@) is None,
        },
{
    let tags = read_tags(workbook_xml, true);
    let ghost tv = tags_view(tags@);
    let w_sheet: [u8; 5] = [0x73, 0x68, 0x65, 0x65, 0x74];
    let w_name: [u8; 4] = [0x6e, 0x61, 0x6d, 0x65];
    let w_id: [u8; 2] = [0x69, 0x64];
    assert(w_sheet@ =~= word_sheet());
    assert(w_name@ =~= word_name());
    assert(w_id@ =~= word_id());
    let mut i: usize = 0;
    while i < tags.len()
        invariant
            i <= tags@.len(),
            tv == tags_view(tags@),
            tv == xml_tags(workbook_xml@, true),
            w_sheet@ == word_sheet(),
            w_name@ == word_name(),
            w_id@ == word_id(),
            sheet_rid_from(tv, 0, sheet_name@) == sheet_rid_from(tv, i as int, sheet_name@),
        decreases tags@.len() - i,
    {
        let t = &tags[i];
        assert(tv[i as int] == tag_view(*t));
        if is_word(t.name.as_slice(), w_sheet.as_slice()) {
            match find_attr(&t.attrs, w_name.as_slice()) {
                None => return None,
                Some(n) => {
                    if same_text(n.as_str(), sheet_name) {
                        return find_attr(&t.attrs, w_id.as_slice());
                    }
                },
            }
        }
        i = i + 1;
    }
    None
}

/// The `Target` of the relationship with id `r_id`, scanning the
/// `Relationship` tags from the `i`-th tag on.
pub open spec fn rel_target_from(tags: Seq<TagView>, i: int, r_id: Seq<char>) -> Option<Seq<char>>
    decreases tags.len() - i,
{
    if i < 0 || i >= tags.len() {
        None
    } else if tags[i].0 == word_relationship() && attr_text(tags[i].1, word_cap_id()) == Some(
        r_id,
    ) {
        attr_text(tags[i].1, word_target())
    } else {
        rel_target_from(tags, i + 1, r_id)
    }
}

/// The target part of relationship `r_id` in `xl/_rels/workbook.xml.rels`.
pub fn rels_target(rels_xml: &[u8], r_id: &str) -> (r: Option<String>)
    ensures
        match r {
            Some(s) => rel_target_from(xml_tags(rels_xml@, true), 0, r_id@) == Some(s@),
            None => rel_target_from(xml_tags(rels_xml@, true), 0, r_id@) is None,
        },
{
    let tags = read_tags(rels_xml, true);
    let ghost tv = tags_view(tags@);
    let w_rel: [u8; 12] = [0x52, 0x65, 0x6c, 0x61, 0x74, 0x69, 0x6f, 0x6e, 0x73, 0x68, 0x69, 0x70];
    let w_id: [u8; 2] = [0x49, 0x64];
    let w_target: [u8; 6] = [0x54, 0x61, 0x72, 0x67, 0x65, 0x74];
    assert(w_rel@ =~= word_relationship());
    assert(w_id@ =~= word_cap_id());
    assert(w_target@ =~= word_target());
    let mut i: usize = 0;
    while i < tags.len()
        invariant
            i <= tags@.len(),
            tv == tags_view(tags@),
            tv == xml_tags(rels_xml@, true),
            w_rel@ == word_relationship(),
            w_id@ == word_cap_id(),
            w_target@ == word_target(),
            rel_target_from(tv, 0, r_id@) == rel_target_from(tv, i as int, r_id@),
        decreases tags@.len() - i,
    {
        let t = &tags[i];
        assert(tv[i as int] == tag_view(*t));
        if is_word(t.name.as_slice(), w_rel.as_slice()) {
            match find_attr(&t.attrs, w_id.as_slice()) {
                Some(id) => {
                    if same_text(id.as_str(), r_id) {
                        return find_attr(&t.attrs, w_target.as_slice());
                    }
                },
                None => {},
            }
        }
        i = i + 1;
    }
    None
}

} // verus!

verus! {

// ---------------------------------------------------------------------------
// The sheet's part

pub open spec fn is_ascii_digit(c: char) -> bool {
    '0' <= c <= '9'
}

/// The text from its first ASCII digit on.
pub open spec fn from_first_digit(s: Seq<char>) -> Seq<char>
    decreases s.len(),
{
    if s.len() > 0 && !is_ascii_digit(s[0]) {
        from_first_digit(s.drop_first())
    } else {
        s
    }
}

pub open spec fn char_digits_value(s: Seq<char>) -> int
    decreases s.len(),
{
    if s.len() == 0 {
        0
    } else {
        char_digits_value(s.drop_last()) * 10 + (s.last() as int - 48)
    }
}

/// The number in a relationship id such as `rId3`: the text from its first
/// digit on, read as a `usize`; 1 where that is not a number that fits.
pub open spec fn rid_index_spec(r_id: Seq<char>) -> usize {
    let d = from_first_digit(r_id);
    if d.len() > 0 && (forall|i: int| 0 <= i < d.len() ==> is_ascii_digit(#[trigger] d[i]))
        && char_digits_value(d) <= usize::MAX {
        char_digits_value(d) as usize
    } else {
        1
    }
}

proof fn lemma_char_digits_nonneg(s: Seq<char>)
    requires
        forall|i: int| 0 <= i < s.len() ==> is_ascii_digit(#[trigger] s[i]),
    ensures
        char_digits_value(s) >= 0,
        s.len() > 0 ==> char_digits_value(s) >= char_digits_value(s.drop_last()),
    decreases s.len(),
{
    if s.len() > 0 {
        assert(is_ascii_digit(s[s.len() - 1]));
        lemma_char_digits_nonneg(s.drop_last());
    }
}

/// The number in a relationship id (see `rid_index_spec`).
pub fn rid_to_sheet_index(r_id: &str) -> (r: usize)
    ensures
        r == rid_index_spec(r_id@),
{
    let c = crate::text::chars_of(r_id);
    let mut k: usize = 0;
    assert(c@.skip(0) =~= c@);
    while k < c.len() && !('0' <= c[k] && c[k] <= '9')
        invariant
            k <= c@.len(),
            c@ == r_id@,
            from_first_digit(c@) == from_first_digit(c@.skip(k as int)),
        decreases c@.len() - k,
    {
        assert(c@.skip(k as int).drop_first() =~= c@.skip(k + 1));
        k = k + 1;
    }
    let ghost d = c@.skip(k as int);
    assert(from_first_digit(d) == d);
    if k == c.len() {
        return 1;
    }
    let mut v: usize = 0;
    let mut i = k;
    let mut overflow = false;
    while i < c.len()
        invariant
            k <= i <= c@.len(),
            k < c@.len(),
            d == c@.skip(k as int),
            from_first_digit(r_id@) == d,
            c@ == r_id@,
            forall|t: int| k <= t < i ==> is_ascii_digit(#[trigger] c@[t]),
            !overflow ==> v == char_digits_value(d.take(i - k)),
            overflow ==> char_digits_value(d.take(i - k)) > usize::MAX,
        decreases c@.len() - i,
    {
        let ch = c[i];
        if !('0' <= ch && ch <= '9') {
            assert(d[i - k] == ch);
            assert(!is_ascii_digit(d[i - k]));
            return 1;
        }
        let dv = (ch as u32 - 48) as usize;
        proof {
            assert(d.take(i + 1 - k).drop_last() =~= d.take(i - k));
            assert(d.take(i + 1 - k).last() == ch);
            assert forall|t: int| 0 <= t < d.take(i - k).len() implies is_ascii_digit(
                #[trigger] d.take(i - k)[t],
            ) by {
                assert(d.take(i - k)[t] == c@[k + t]);
            }
            lemma_char_digits_nonneg(d.take(i - k));
        }
        if !overflow {
            if v > (usize::MAX - dv) / 10 {
                overflow = true;
            } else {
                v = v * 10 + dv;
            }
        }
        i = i + 1;
    }
    assert(d.take(i - k) =~= d);
    assert forall|t: int| 0 <= t < d.len() implies is_ascii_digit(#[trigger] d[t]) by {
        assert(d[t] == c@[k + t]);
    }
    if overflow {
        1
    } else {
        v
    }
}

} // verus!

verus! {

/// The archive entry of a sheet: `xl/` and the relationship's target, or,
/// where the relationships part is missing or has no such relationship,
/// `xl/worksheets/sheet<n>.xml` with the number of the relationship id.
pub open spec fn sheet_xml_path_spec(r_id: Seq<char>, rels_xml: Option<Seq<u8>>) -> Seq<char> {
    let fallback = "worksheets/sheet"@ + decimal(rid_index_spec(r_id) as nat) + ".xml"@;
    "xl/"@ + match rels_xml {
        Some(x) => match rel_target_from(xml_tags(x, true), 0, r_id) {
            Some(t) => t,
            None => fallback,
        },
        None => fallback,
    }
}

/// The archive entry that holds the XML of the sheet with relationship id
/// `r_id`, given the relationships part where it could be read.
pub fn sheet_xml_path(r_id: &str, rels_xml: Option<&[u8]>) -> (r: String)
    ensures
        r@ == sheet_xml_path_spec(r_id@, opt_bytes(rels_xml)),
{
    let target = match rels_xml {
        Some(x) => rels_target(x, r_id),
        None => None,
    };
    let mut out = String::new();
    out.append("xl/");
    match target {
        Some(t) => out.append(t.as_str()),
        None => {
            out.append("worksheets/sheet");
            push_decimal(&mut out, rid_to_sheet_index(r_id));
            out.append(".xml");
        },
    }
    proof {
        let ghost e: Seq<char> = seq![];
        assert(e + "xl/"@ =~= "xl/"@);
    }
    out
}

/// What a sheet preview is read from.
#[derive(Clone, Debug, PartialEq)]
pub enum SheetSource {
    /// The worksheet XML and the workbook's shared strings, from the archive.
    Xml { sheet_xml: Vec<u8>, shared_strings: Vec<String> },
    /// The sheet's cells as text, row by row, from the general workbook reader.
    Grid(Vec<Vec<String>>),
}

pub open spec fn grid_fits(g: Seq<Vec<String>>) -> bool {
    &&& g.len() < i64::MAX
    &&& forall|i: int| 0 <= i < g.len() ==> (#[trigger] g[i])@.len() < i64::MAX
}

/// The preview a source gives (see `sheet_preview_spec` and
/// `grid_preview_spec`). `None` only for worksheet XML with a row or column
/// number that overflows `usize`.
pub open spec fn read_sheet_spec(
    source: SheetSource,
    keyword: Option<Seq<char>>,
    match_mode: Seq<char>,
    max_hits: usize,
    preview_rows: usize,
    preview_cols: usize,
    start_row: Option<usize>,
    start_col: Option<usize>,
) -> Option<PreviewView> {
    match source {
        SheetSource::Xml { sheet_xml, shared_strings } => sheet_preview_spec(
            sheet_xml@,
            strings_view(shared_strings@),
            keyword,
            mode_spec(match_mode),
            max_hits,
            preview_rows,
            preview_cols,
            start_row,
            start_col,
        ),
        SheetSource::Grid(g) => Some(
            grid_preview_spec(
                grid_view(g@),
                keyword,
                mode_spec(match_mode),
                max_hits,
                preview_rows,
                preview_cols,
                start_row,
                start_col,
            ),
        ),
    }
}

/// Reads the preview of a sheet: the hits of `keyword` (at most
/// `max_hits`, at least one), the window of `preview_rows` by
/// `preview_cols` cells around the first hit or from the requested start,
/// and the header row (row 1, columns `1..=preview_cols`). `None` exactly
/// for worksheet XML with a row or column number that overflows `usize`.
pub fn read_sheet_with_hits(
    source: &SheetSource,
    keyword: Option<&str>,
    match_mode: &str,
    max_hits: usize,
    preview_rows: usize,
    preview_cols: usize,
    start_row: Option<usize>,
    start_col: Option<usize>,
) -> (r: Option<PreviewResponse>)
    requires
        match *source {
            SheetSource::Xml { sheet_xml, .. } => sheet_xml@.len() <= isize::MAX,
            SheetSource::Grid(g) => grid_fits(g@),
        },
    ensures
        match r {
            Some(p) => read_sheet_spec(
                *source,
                opt_view(keyword),
                match_mode@,
                max_hits,
                preview_rows,
                preview_cols,
                start_row,
                start_col,
            ) == Some(preview_view(p)),
            None => read_sheet_spec(
                *source,
                opt_view(keyword),
                match_mode@,
                max_hits,
                preview_rows,
                preview_cols,
                start_row,
                start_col,
            ) is None,
        },
{
    let mode = crate::matching::match_mode(match_mode);
    match source {
        SheetSource::Xml { sheet_xml, shared_strings } => preview_from_sheet_xml(
            sheet_xml.as_slice(),
            shared_strings,
            keyword,
            mode,
            max_hits,
            preview_rows,
            preview_cols,
            start_row,
            start_col,
        ),
        SheetSource::Grid(g) => Some(
            preview_from_grid(g, keyword, mode, max_hits, preview_rows, preview_cols, start_row, start_col),
        ),
    }
}

} // verus!

verus! {

/// Whether the sheet names of this file are read from its archive first
/// (every file but `.xls`, which only the general reader opens).
pub fn archive_lists_sheets(filepath: &str) -> (r: bool)
    ensures
        r == (lower_extension(filepath@) != "xls"@),
        !r ==> sheet_names_spec(filepath@, None) is None,
{
    let ext = extension_lowered(filepath);
    !same_text(ext.as_str(), "xls")
}

} // verus!

verus! {

/// Whether a directory walk enters an entry: the starting point always,
/// other directories only when their name does not start with `.`, and
/// every file.
pub fn descend_into(depth: usize, is_dir: bool, name: &str) -> (r: bool)
    ensures
        r == (depth == 0 || !is_dir || !(name@.len() > 0 && name@[0] == '.')),
{
    if depth == 0 || !is_dir {
        return true;
    }
    let c = crate::text::chars_of(name);
    !(c.len() > 0 && c[0] == '.')
}

} // verus!
