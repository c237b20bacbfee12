//! Who may use the local web API, and the small texts the server sends:
//! the token cookie, asset content types and the desktop user agent.
use vstd::prelude::*;
use crate::text::{chars_of, first_index, lemma_first_index, string_of, trim};

verus! {

/// The start of the desktop window's user agent; the API tells its own
/// window from an external browser by it.
pub const WEBVIEW_UA_PREFIX: &'static str = "XlsxSearcher-webview";

/// The user agent of the desktop window: the prefix, the version, the
/// operating system and the architecture.
pub fn webview_user_agent(version: &str, os: &str, arch: &str) -> (r: String)
    ensures
        r@ == WEBVIEW_UA_PREFIX@ + "/"@ + version@ + " ("@ + os@ + " "@ + arch@ + ")"@,
{
    let mut s = String::new();
    s.append(WEBVIEW_UA_PREFIX);
    s.append("/");
    s.append(version);
    s.append(" (");
    s.append(os);
    s.append(" ");
    s.append(arch);
    s.append(")");
    assert(s@ =~= WEBVIEW_UA_PREFIX@ + "/"@ + version@ + " ("@ + os@ + " "@ + arch@ + ")"@);
    s
}

/// `s` starts with `p`.
pub open spec fn starts_with(s: Seq<char>, p: Seq<char>) -> bool {
    p.len() <= s.len() && s.take(p.len() as int) == p
}

/// `s` ends with `p`.
pub open spec fn ends_with(s: Seq<char>, p: Seq<char>) -> bool {
    p.len() <= s.len() && s.skip(s.len() - p.len()) == p
}

fn starts_with_exec(s: &str, p: &str) -> (r: bool)
    ensures
        r == starts_with(s@, p@),
{
    let a = chars_of(s);
    let b = chars_of(p);
    if b.len() > a.len() {
        return false;
    }
    let mut i: usize = 0;
    while i < b.len()
        invariant
            i <= b@.len() <= a@.len(),
            a@ == s@,
            b@ == p@,
            forall|t: int| 0 <= t < i ==> a@[t] == b@[t],
        decreases b@.len() - i,
    {
        if a[i] != b[i] {
            assert(a@.take(b@.len() as int)[i as int] != b@[i as int]);
            return false;
        }
        i = i + 1;
    }
    assert(a@.take(b@.len() as int) =~= b@);
    true
}

fn ends_with_exec(s: &str, p: &str) -> (r: bool)
    ensures
        r == ends_with(s@, p@),
{
    let a = chars_of(s);
    let b = chars_of(p);
    if b.len() > a.len() {
        return false;
    }
    let off = a.len() - b.len();
    let mut i: usize = 0;
    while i < b.len()
        invariant
            i <= b@.len() <= a@.len(),
            a@.len() <= usize::MAX,
            off == a@.len() - b@.len(),
            a@ == s@,
            b@ == p@,
            forall|t: int| 0 <= t < i ==> a@[off + t] == b@[t],
        decreases b@.len() - i,
    {
        if a[off + i] != b[i] {
            assert(a@.skip(off as int)[i as int] != b@[i as int]);
            return false;
        }
        i = i + 1;
    }
    assert(a@.skip(off as int) =~= b@);
    true
}

/// The value of the first `token=` pair of a query string (pairs separated
/// by `&`, each split at its first `=`).
pub open spec fn query_token(q: Seq<char>) -> Option<Seq<char>>
    decreases q.len(),
{
    let k = first_index(q, '&');
    let seg = q.take(k as int);
    let e = first_index(seg, '=');
    if e < seg.len() && seg.take(e as int) == "token"@ {
        Some(seg.skip(e + 1int))
    } else if k < q.len() {
        query_token(q.skip(k + 1int))
    } else {
        None
    }
}

/// The value of the first `xlsx_token=` cookie (cookies separated by `;`,
/// each trimmed of whitespace).
pub open spec fn cookie_token(c: Seq<char>) -> Option<Seq<char>>
    decreases c.len(),
{
    let k = first_index(c, ';');
    let part = trim(c.take(k as int));
    if starts_with(part, "xlsx_token="@) {
        Some(part.skip(11))
    } else if k < c.len() {
        cookie_token(c.skip(k + 1int))
    } else {
        None
    }
}

fn find_char(c: &Vec<char>, from: usize, ch: char) -> (r: usize)
    requires
        from <= c@.len(),
    ensures
        r == from + first_index(c@.skip(from as int), ch),
        r <= c@.len(),
{
    let mut i = from;
    while i < c.len() && c[i] != ch
        invariant
            from <= i <= c@.len(),
            forall|t: int| from <= t < i ==> c@[t] != ch,
        decreases c@.len() - i,
    {
        i = i + 1;
    }
    proof {
        let s = c@.skip(from as int);
        assert forall|t: int| 0 <= t < i - from implies #[trigger] s[t] != ch by {
            assert(s[t] == c@[from + t]);
        }
        if i < c@.len() {
            assert(s[i - from] == c@[i as int]);
        }
        crate::text::lemma_first_index_is(s, ch, (i - from) as nat);
    }
    i
}

fn chars_equal(c: &Vec<char>, lo: usize, hi: usize, w: &str) -> (r: bool)
    requires
        lo <= hi <= c@.len(),
    ensures
        r == (c@.subrange(lo as int, hi as int) == w@),
{
    let b = chars_of(w);
    if hi - lo != b.len() {
        assert(c@.subrange(lo as int, hi as int).len() != w@.len());
        return false;
    }
    let mut i: usize = 0;
    while i < b.len()
        invariant
            i <= b@.len(),
            hi - lo == b@.len(),
            lo <= hi <= c@.len(),
            b@ == w@,
            forall|t: int| 0 <= t < i ==> c@[lo + t] == b@[t],
        decreases b@.len() - i,
    {
        if c[lo + i] != b[i] {
            assert(c@.subrange(lo as int, hi as int)[i as int] != b@[i as int]);
            return false;
        }
        i = i + 1;
    }
    assert(c@.subrange(lo as int, hi as int) =~= b@);
    true
}

/// The token given in the query string.
pub fn find_query_token(query: &str) -> (r: Option<String>)
    ensures
        match r {
            Some(t) => query_token(query@) == Some(t@),
            None => query_token(query@) is None,
        },
{
    let c = chars_of(query);
    let mut from: usize = 0;
    assert(c@.skip(0) =~= c@);
    while from <= c.len()
        invariant
            from <= c@.len() + 1,
            c@ == query@,
            from <= c@.len() ==> query_token(query@) == query_token(c@.skip(from as int)),
            from > c@.len() ==> query_token(query@) is None,
        decreases c@.len() + 1 - from,
    {
        let ghost q = c@.skip(from as int);
        let k = find_char(&c, from, '&');
        let ghost seg = q.take(k - from);
        assert(seg =~= c@.subrange(from as int, k as int));
        let e = find_char(&c, from, '=');
        proof {
            lemma_first_index(q, '=');
            lemma_first_index(q, '&');
        }
        // the first `=` of the segment, if it lies before the `&`
        if e < k {
            proof {
                crate::text::lemma_first_index_is(seg, '=', (e - from) as nat);
                assert forall|t: int| 0 <= t < e - from implies #[trigger] seg[t] != '=' by {
                    assert(seg[t] == q[t]);
                }
            }
            if chars_equal(&c, from, e, "token") {
                assert(seg.take(e - from) =~= c@.subrange(from as int, e as int));
                assert(seg.skip(e - from + 1) =~= c@.subrange(e + 1, k as int));
                return Some(string_of(&c.as_slice()[e + 1..k]));
            }
            assert(seg.take(e - from) =~= c@.subrange(from as int, e as int));
        } else {
            proof {
                assert forall|t: int| 0 <= t < seg.len() implies #[trigger] seg[t] != '=' by {
                    assert(seg[t] == q[t]);
                }
                crate::text::lemma_first_index_is(seg, '=', seg.len());
            }
        }
        if k == c.len() {
            return None;
        }
        assert(q.skip(k - from + 1) =~= c@.skip(k + 1));
        from = k + 1;
    }
    None
}

/// The `xlsx_token` cookie's value.
pub fn find_cookie_token(cookie: &str) -> (r: Option<String>)
    ensures
        match r {
            Some(t) => cookie_token(cookie@) == Some(t@),
            None => cookie_token(cookie@) is None,
        },
{
    let c = chars_of(cookie);
    let mut from: usize = 0;
    assert(c@.skip(0) =~= c@);
    while from <= c.len()
        invariant
            from <= c@.len() + 1,
            c@ == cookie@,
            from <= c@.len() ==> cookie_token(cookie@) == cookie_token(c@.skip(from as int)),
            from > c@.len() ==> cookie_token(cookie@) is None,
        decreases c@.len() + 1 - from,
    {
        let ghost q = c@.skip(from as int);
        let k = find_char(&c, from, ';');
        assert(q.take(k - from) =~= c@.subrange(from as int, k as int));
        let (a, b) = crate::text::trim_range(&c, from, k);
        assert(trim(q.take(k - from)) =~= c@.subrange(a as int, b as int));
        let ghost part = c@.subrange(a as int, b as int);
        if b - a >= 11 && chars_equal(&c, a, a + 11, "xlsx_token=") {
            assert(part.take(11) =~= c@.subrange(a as int, a + 11));
            assert(part.skip(11) =~= c@.subrange(a + 11, b as int));
            assert("xlsx_token="@.len() == 11) by {
                reveal_strlit("xlsx_token=");
            }
            return Some(string_of(&c.as_slice()[a + 11..b]));
        }
        proof {
            reveal_strlit("xlsx_token=");
            if part.len() >= 11 {
                assert(part.take(11) =~= c@.subrange(a as int, a + 11));
            }
        }
        if k == c.len() {
            return None;
        }
        assert(q.skip(k - from + 1) =~= c@.skip(k + 1));
        from = k + 1;
    }
    None
}

/// What the API does with a request.
#[derive(Clone, Debug, PartialEq)]
pub enum Access {
    /// Serve it; with `set_cookie`, also store the token in a cookie.
    Allow { set_cookie: bool },
    /// Refuse it with this message.
    Forbidden(String),
}

pub enum AccessView {
    Allow { set_cookie: bool },
    Forbidden(Seq<char>),
}

pub open spec fn access_view(a: Access) -> AccessView {
    match a {
        Access::Allow { set_cookie } => AccessView::Allow { set_cookie },
        Access::Forbidden(m) => AccessView::Forbidden(m@),
    }
}

pub open spec fn opt_chars(o: Option<&str>) -> Option<Seq<char>> {
    match o {
        Some(s) => Some(s@),
        None => None,
    }
}

/// The access rule: the health check is always served; with the web
/// interface off only the desktop window (by its user agent) gets in; and
/// every other request needs the token, in the query or in the cookie.
/// A request that brought the token in its query gets the cookie set.
pub open spec fn access_spec(
    path: Seq<char>,
    web_enabled: bool,
    user_agent: Option<Seq<char>>,
    query: Option<Seq<char>>,
    cookie: Option<Seq<char>>,
    token: Seq<char>,
) -> AccessView {
    let qt = match query {
        Some(q) => query_token(q),
        None => None,
    };
    let ct = match cookie {
        Some(c) => cookie_token(c),
        None => None,
    };
    if path == "/api/health"@ {
        AccessView::Allow { set_cookie: false }
    } else if !web_enabled && !(user_agent matches Some(ua) && starts_with(ua, WEBVIEW_UA_PREFIX@)) {
        AccessView::Forbidden("Web 界面已关闭"@)
    } else if !(qt == Some(token) || ct == Some(token)) {
        AccessView::Forbidden("无权访问"@)
    } else {
        AccessView::Allow { set_cookie: qt is Some }
    }
}

/// Decides whether the API serves a request, from its path, whether the web
/// interface is on, its user agent, query string and cookie header, and the
/// session's token.
pub fn access_decision(
    path: &str,
    web_enabled: bool,
    user_agent: Option<&str>,
    query: Option<&str>,
    cookie: Option<&str>,
    token: &str,
) -> (r: Access)
    ensures
        access_view(r) == access_spec(
            path@,
            web_enabled,
            opt_chars(user_agent),
            opt_chars(query),
            opt_chars(cookie),
            token@,
        ),
{
    if crate::workbook::same_text(path, "/api/health") {
        return Access::Allow { set_cookie: false };
    }
    let from_window = match user_agent {
        Some(ua) => starts_with_exec(ua, WEBVIEW_UA_PREFIX),
        None => false,
    };
    if !web_enabled && !from_window {
        return Access::Forbidden("Web 界面已关闭".to_owned());
    }
    let qt = match query {
        Some(q) => find_query_token(q),
        None => None,
    };
    let ct = match cookie {
        Some(c) => find_cookie_token(c),
        None => None,
    };
    let q_ok = match &qt {
        Some(t) => crate::workbook::same_text(t.as_str(), token),
        None => false,
    };
    let c_ok = match &ct {
        Some(t) => crate::workbook::same_text(t.as_str(), token),
        None => false,
    };
    if !(q_ok || c_ok) {
        return Access::Forbidden("无权访问".to_owned());
    }
    Access::Allow { set_cookie: qt.is_some() }
}

/// The cookie that stores the token for the whole site.
pub fn token_cookie(token: &str) -> (r: String)
    ensures
        r@ == "xlsx_token="@ + token@ + "; Path=/"@,
{
    crate::query::concat3("xlsx_token=", token, "; Path=/")
}

/// The content type of an asset, by its extension.
pub open spec fn content_type_spec(path: Seq<char>) -> Seq<char> {
    if ends_with(path, ".js"@) {
        "application/javascript"@
    } else if ends_with(path, ".css"@) {
        "text/css"@
    } else if ends_with(path, ".html"@) {
        "text/html"@
    } else if ends_with(path, ".svg"@) {
        "image/svg+xml"@
    } else if ends_with(path, ".png"@) {
        "image/png"@
    } else if ends_with(path, ".ico"@) {
        "image/x-icon"@
    } else if ends_with(path, ".json"@) {
        "application/json"@
    } else if ends_with(path, ".woff2"@) {
        "font/woff2"@
    } else {
        "application/octet-stream"@
    }
}

pub fn content_type(path: &str) -> (r: &'static str)
    ensures
        r@ == content_type_spec(path@),
{
    if ends_with_exec(path, ".js") {
        "application/javascript"
    } else if ends_with_exec(path, ".css") {
        "text/css"
    } else if ends_with_exec(path, ".html") {
        "text/html"
    } else if ends_with_exec(path, ".svg") {
        "image/svg+xml"
    } else if ends_with_exec(path, ".png") {
        "image/png"
    } else if ends_with_exec(path, ".ico") {
        "image/x-icon"
    } else if ends_with_exec(path, ".json") {
        "application/json"
    } else if ends_with_exec(path, ".woff2") {
        "font/woff2"
    } else {
        "application/octet-stream"
    }
}

/// The text without its leading `/`s.
pub open spec fn strip_slashes(s: Seq<char>) -> Seq<char>
    decreases s.len(),
{
    if s.len() > 0 && s[0] == '/' {
        strip_slashes(s.drop_first())
    } else {
        s
    }
}

/// The asset a request path asks for: the path without its leading
/// slashes, `index.html` for the root. (A missing asset is answered with
/// `index.html` by the server.)
pub open spec fn asset_path_spec(uri_path: Seq<char>) -> Seq<char> {
    let p = strip_slashes(uri_path);
    if p.len() == 0 {
        "index.html"@
    } else {
        p
    }
}

/// The embedded asset a request path names.
pub fn asset_path(uri_path: &str) -> (r: String)
    ensures
        r@ == asset_path_spec(uri_path@),
{
    let c = chars_of(uri_path);
    let mut i: usize = 0;
    assert(c@.skip(0) =~= c@);
    while i < c.len() && c[i] == '/'
        invariant
            i <= c@.len(),
            c@ == uri_path@,
            strip_slashes(c@) == strip_slashes(c@.skip(i as int)),
        decreases c@.len() - i,
    {
        assert(c@.skip(i as int).drop_first() =~= c@.skip(i + 1));
        i = i + 1;
    }
    assert(strip_slashes(c@.skip(i as int)) == c@.skip(i as int));
    if i == c.len() {
        assert(c@.skip(i as int).len() == 0);
        return "index.html".to_owned();
    }
    assert(c@.skip(i as int) =~= c@.subrange(i as int, c@.len() as int));
    string_of(&c.as_slice()[i..c.len()])
}

/// Text for an AppleScript string literal: backslashes and double quotes
/// escaped with a backslash.
pub open spec fn applescript_escaped(s: Seq<char>) -> Seq<char>
    decreases s.len(),
{
    if s.len() == 0 {
        seq![]
    } else {
        let r = applescript_escaped(s.drop_last());
        if s.last() == '\\' {
            r + seq!['\\', '\\']
        } else if s.last() == '"' {
            r + seq!['\\', '"']
        } else {
            r.push(s.last())
        }
    }
}

pub fn escape_applescript(value: &str) -> (r: String)
    ensures
        r@ == applescript_escaped(value@),
{
    let c = chars_of(value);
    let mut out = String::new();
    let mut i: usize = 0;
    while i < c.len()
        invariant
            i <= c@.len(),
            c@ == value@,
            out@ == applescript_escaped(c@.take(i as int)),
        decreases c@.len() - i,
    {
        assert(c@.take(i + 1).drop_last() =~= c@.take(i as int));
        if c[i] == '\\' {
            crate::utf8::push_char(&mut out, '\\');
            crate::utf8::push_char(&mut out, '\\');
        } else if c[i] == '"' {
            crate::utf8::push_char(&mut out, '\\');
            crate::utf8::push_char(&mut out, '"');
        } else {
            crate::utf8::push_char(&mut out, c[i]);
        }
        assert(out@ =~= applescript_escaped(c@.take(i + 1)));
        i = i + 1;
    }
    assert(c@.take(i as int) =~= c@);
    out
}

/// Text for a PowerShell single-quoted literal: single quotes doubled.
pub open spec fn powershell_quoted(s: Seq<char>) -> Seq<char>
    decreases s.len(),
{
    if s.len() == 0 {
        seq![]
    } else {
        let r = powershell_quoted(s.drop_last());
        if s.last() == '\'' {
            r + seq!['\'', '\'']
        } else {
            r.push(s.last())
        }
    }
}

pub fn escape_powershell(value: &str) -> (r: String)
    ensures
        r@ == powershell_quoted(value@),
{
    let c = chars_of(value);
    let mut out = String::new();
    let mut i: usize = 0;
    while i < c.len()
        invariant
            i <= c@.len(),
            c@ == value@,
            out@ == powershell_quoted(c@.take(i as int)),
        decreases c@.len() - i,
    {
        assert(c@.take(i + 1).drop_last() =~= c@.take(i as int));
        if c[i] == '\'' {
            crate::utf8::push_char(&mut out, '\'');
            crate::utf8::push_char(&mut out, '\'');
        } else {
            crate::utf8::push_char(&mut out, c[i]);
        }
        assert(out@ =~= powershell_quoted(c@.take(i + 1)));
        i = i + 1;
    }
    assert(c@.take(i as int) =~= c@);
    out
}

/// The AppleScript that opens a workbook in Excel and activates a sheet.
pub open spec fn excel_script_macos_spec(filepath: Seq<char>, sheet: Seq<char>) -> Seq<char> {
    "tell application \"Microsoft Excel\"\n\topen POSIX file \""@ + applescript_escaped(filepath)
        + "\"\n\tactivate\n\tset active sheet to worksheet \""@ + applescript_escaped(sheet)
        + "\" of workbook 1\nend tell"@
}

pub fn excel_script_macos(filepath: &str, sheet_name: &str) -> (r: String)
    ensures
        r@ == excel_script_macos_spec(filepath@, sheet_name@),
{
    let mut s = String::new();
    s.append("tell application \"Microsoft Excel\"\n\topen POSIX file \"");
    s.append(escape_applescript(filepath).as_str());
    s.append("\"\n\tactivate\n\tset active sheet to worksheet \"");
    s.append(escape_applescript(sheet_name).as_str());
    s.append("\" of workbook 1\nend tell");
    assert(s@ =~= excel_script_macos_spec(filepath@, sheet_name@));
    s
}

/// The PowerShell script that opens a workbook in Excel and activates a sheet.
pub open spec fn excel_script_windows_spec(filepath: Seq<char>, sheet: Seq<char>) -> Seq<char> {
    "$ErrorActionPreference='Stop'\n$excel = New-Object -ComObject Excel.Application\n$excel.Visible = $true\n$wb = $excel.Workbooks.Open('"@
        + powershell_quoted(filepath) + "')\n$ws = $wb.Worksheets.Item('"@ + powershell_quoted(sheet)
        + "')\n$ws.Activate()\n$excel.Activate()\n"@
}

pub fn excel_script_windows(filepath: &str, sheet_name: &str) -> (r: String)
    ensures
        r@ == excel_script_windows_spec(filepath@, sheet_name@),
{
    let mut s = String::new();
    s.append("$ErrorActionPreference='Stop'\n$excel = New-Object -ComObject Excel.Application\n$excel.Visible = $true\n$wb = $excel.Workbooks.Open('");
    s.append(escape_powershell(filepath).as_str());
    s.append("')\n$ws = $wb.Worksheets.Item('");
    s.append(escape_powershell(sheet_name).as_str());
    s.append("')\n$ws.Activate()\n$excel.Activate()\n");
    assert(s@ =~= excel_script_windows_spec(filepath@, sheet_name@));
    s
}

} // verus!

verus! {

/// What a file action request asks for.
#[derive(Clone, Debug, PartialEq)]
pub enum FileAction {
    /// Open the file, at the given sheet where one is named.
    Open(Option<String>),
    /// Show the file in the file manager.
    Locate,
    /// Copy the file's path to the clipboard.
    Copy,
    /// An unknown action, with the message that answers it.
    Unknown(String),
}

pub enum FileActionView {
    Open(Option<Seq<char>>),
    Locate,
    Copy,
    Unknown(Seq<char>),
}

pub open spec fn file_action_view(a: FileAction) -> FileActionView {
    match a {
        FileAction::Open(s) => FileActionView::Open(
            match s {
                Some(x) => Some(x@),
                None => None,
            },
        ),
        FileAction::Locate => FileActionView::Locate,
        FileAction::Copy => FileActionView::Copy,
        FileAction::Unknown(m) => FileActionView::Unknown(m@),
    }
}

/// `open` (at the sheet, unless it is missing or empty), `locate`, `copy`;
/// anything else is unknown.
pub open spec fn file_action_spec(action: Seq<char>, sheet_name: Option<Seq<char>>) -> FileActionView {
    if action == "open"@ {
        FileActionView::Open(
            match sheet_name {
                Some(s) => if s.len() > 0 {
                    Some(s)
                } else {
                    None
                },
                None => None,
            },
        )
    } else if action == "locate"@ {
        FileActionView::Locate
    } else if action == "copy"@ {
        FileActionView::Copy
    } else {
        FileActionView::Unknown("未知操作: "@ + action)
    }
}

/// Reads a file action request.
pub fn file_action(action: &str, sheet_name: Option<&str>) -> (r: FileAction)
    ensures
        file_action_view(r) == file_action_spec(action@, opt_chars(sheet_name)),
{
    if crate::workbook::same_text(action, "open") {
        let sheet = match sheet_name {
            Some(s) => if s.is_empty() {
                None
            } else {
                Some(s.to_owned())
            },
            None => None,
        };
        FileAction::Open(sheet)
    } else if crate::workbook::same_text(action, "locate") {
        FileAction::Locate
    } else if crate::workbook::same_text(action, "copy") {
        FileAction::Copy
    } else {
        FileAction::Unknown(crate::query::concat2("未知操作: ", action))
    }
}

} // verus!
