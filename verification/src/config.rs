//! Where the application keeps its data and what it remembers between
//! runs: the configuration file, `~` in paths, the last directory.
use vstd::prelude::*;
use crate::access::starts_with;
use crate::text::{chars_of, string_of};

verus! {

/// What `PathBuf::from(base).join(rest)` gives, as lossy text. It depends
/// on the path syntax of the platform the library is built for (the
/// separator, what counts as an absolute path), and on nothing else.
pub uninterp spec fn path_join(base: Seq<char>, rest: Seq<char>) -> Seq<char>;

/// `Path::join`, the joined path as text.
#[verifier::external_body]
fn join_path(base: &str, rest: &str) -> (r: String)
    ensures
        r@ == path_join(base@, rest@),
{
    std::path::Path::new(base).join(rest).to_string_lossy().into_owned()
}

/// The user's home directory as `dirs::home_dir` finds it, as lossy text.
/// It depends on the environment, so nothing is stated of it.
#[verifier::external_body]
fn home_dir() -> (r: Option<String>) {
    dirs::home_dir().map(|h| h.to_string_lossy().into_owned())
}

/// A path with a leading `~/` taken relative to the home directory `home`;
/// other paths, or any path where there is no home directory, unchanged.
pub open spec fn expand_user_spec(path: Seq<char>, home: Option<Seq<char>>) -> Seq<char> {
    if starts_with(path, "~/"@) && home is Some {
        path_join(home.unwrap(), path.skip(2))
    } else {
        path
    }
}

pub open spec fn opt_text_of(o: Option<String>) -> Option<Seq<char>> {
    match o {
        Some(s) => Some(s@),
        None => None,
    }
}

/// Expands a leading `~/` with the given home directory.
pub fn expand_user_in(path: &str, home: Option<String>) -> (r: String)
    ensures
        r@ == expand_user_spec(path@, opt_text_of(home)),
{
    let c = chars_of(path);
    proof {
        reveal_strlit("~/");
    }
    if c.len() >= 2 && c[0] == '~' && c[1] == '/' {
        assert(c@.take(2) =~= "~/"@);
        match home {
            Some(h) => {
                assert(c@.skip(2) =~= c@.subrange(2, c@.len() as int));
                let rest = string_of(&c.as_slice()[2..c.len()]);
                return join_path(h.as_str(), rest.as_str());
            },
            None => {},
        }
    } else {
        assert(!starts_with(path@, "~/"@)) by {
            if c@.len() >= 2 {
                assert(c@.take(2)[0] == c@[0]);
                assert(c@.take(2)[1] == c@[1]);
            }
        }
    }
    path.to_owned()
}

/// Expands a leading `~/` with the user's home directory.
pub fn expand_user(path: &str) -> (r: String)
    ensures
        !starts_with(path@, "~/"@) ==> r@ == path@,
        exists|home: Option<Seq<char>>| r@ == expand_user_spec(path@, home),
{
    let home = home_dir();
    let ghost h = opt_text_of(home);
    let r = expand_user_in(path, home);
    assert(r@ == expand_user_spec(path@, h));
    r
}

/// The string at `key` of the top-level JSON object in `text`, as
/// `serde_json::from_str::<Value>` then `get(key)` and `as_str` find it.
pub uninterp spec fn json_str_field(text: Seq<char>, key: Seq<char>) -> Option<Seq<char>>;

/// Parses `text` as JSON and reads the string at `key`.
#[verifier::external_body]
fn json_field(text: &str, key: &str) -> (r: Option<String>)
    ensures
        opt_text_of(r) == json_str_field(text@, key@),
{
    let value: serde_json::Value = serde_json::from_str(text).ok()?;
    value.get(key).and_then(|v| v.as_str()).map(|v| v.to_string())
}

/// The directory remembered in the saved state (its `directory` string).
pub fn saved_directory(state_json: &str) -> (r: Option<String>)
    ensures
        opt_text_of(r) == json_str_field(state_json@, "directory"@),
{
    json_field(state_json, "directory")
}

/// The string at `<outer>.<inner>` of the YAML document in `text`, as
/// `serde_yaml::from_str::<Value>` then `get(outer)`, `get(inner)` and
/// `as_str` find it.
pub uninterp spec fn yaml_nested_str(text: Seq<char>, outer: Seq<char>, inner: Seq<char>) -> Option<Seq<char>>;

/// Parses `text` as YAML and reads the string at `<outer>.<inner>`.
#[verifier::external_body]
fn yaml_str_at(text: &str, outer: &str, inner: &str) -> (r: Option<String>)
    ensures
        opt_text_of(r) == yaml_nested_str(text@, outer@, inner@),
{
    let value: serde_yaml::Value = serde_yaml::from_str(text).ok()?;
    value.get(outer).and_then(|v| v.get(inner)).and_then(|v| v.as_str()).map(|v| v.to_string())
}

/// The application's configuration: its version and data directory.
#[derive(Clone, Debug, PartialEq)]
pub struct AppConfig {
    pub version: Option<String>,
    pub data_dir: Option<String>,
}

/// Reads the configuration file's `app.version` and `app.data_dir`.
pub fn parse_app_config(text: &str) -> (r: AppConfig)
    ensures
        opt_text_of(r.version) == yaml_nested_str(text@, "app"@, "version"@),
        opt_text_of(r.data_dir) == yaml_nested_str(text@, "app"@, "data_dir"@),
{
    AppConfig { version: yaml_str_at(text, "app", "version"), data_dir: yaml_str_at(text, "app", "data_dir") }
}

} // verus!
