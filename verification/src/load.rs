use vstd::prelude::*;
use vstd::string::StrSliceExecFns;
use crate::error::Error;
use crate::laws::lemma_merge_entries_wf;
use crate::merge::{merge_entries, error_conflict, Conflict};
use crate::value::{ConfigValue, Node, entry_nodes_of, wf_entries};

verus! {

/// Index of the last occurrence of `c` in `s`, or -1 when `s` has none.
pub open spec fn last_sep(s: Seq<char>, c: char) -> int
    decreases s.len(),
{
    if s.len() == 0 {
        -1
    } else if s[s.len() - 1] == c {
        s.len() - 1
    } else {
        last_sep(s.drop_last(), c)
    }
}

pub proof fn lemma_last_sep(s: Seq<char>, c: char)
    ensures
        -1 <= last_sep(s, c) < s.len(),
        last_sep(s, c) >= 0 ==> s[last_sep(s, c)] == c && (forall|j: int|
            last_sep(s, c) < j < s.len() ==> s[j] != c),
        last_sep(s, c) == -1 ==> forall|j: int| 0 <= j < s.len() ==> s[j] != c,
    decreases s.len(),
{
    if s.len() > 0 && s[s.len() - 1] != c {
        lemma_last_sep(s.drop_last(), c);
        assert(forall|j: int| 0 <= j < s.len() - 1 ==> s[j] == s.drop_last()[j]);
    }
}

/// The file name part of a path: what follows the last `/`, or the whole
/// path when it has none.
pub open spec fn file_name_of(path: Seq<char>) -> Seq<char> {
    path.subrange(last_sep(path, '/') + 1, path.len() as int)
}

/// The extension of a path: what follows the last `.` of its file name,
/// provided that dot is neither absent nor the name's first character.
pub open spec fn extension_of(path: Seq<char>) -> Option<Seq<char>> {
    let name = file_name_of(path);
    let d = last_sep(name, '.');
    if d >= 1 {
        Some(name.subrange(d + 1, name.len() as int))
    } else {
        None
    }
}

/// Index of the last occurrence of `c` in `s`, if any.
fn find_last(s: &str, c: char) -> (r: Option<usize>)
    ensures
        match r {
            Some(i) => i < s@.len() && s@[i as int] == c && (forall|j: int|
                i < j < s@.len() ==> s@[j] != c),
            None => forall|j: int| 0 <= j < s@.len() ==> s@[j] != c,
        },
{
    let n = s.unicode_len();
    let mut i: usize = 0;
    let mut found: Option<usize> = None;
    while i < n
        invariant
            i <= n,
            n == s@.len(),
            match found {
                Some(f) => f < i && s@[f as int] == c && (forall|j: int|
                    f < j < i ==> s@[j] != c),
                None => forall|j: int| 0 <= j < i ==> s@[j] != c,
            },
        decreases n - i,
    {
        if s.get_char(i) == c {
            found = Some(i);
        }
        i = i + 1;
    }
    found
}

/// The extension of `path`, as `extension_of` says on the model.
fn extension_exec(path: &str) -> (r: Option<&str>)
    ensures
        match r {
            Some(e) => extension_of(path@) == Some(e@),
            None => extension_of(path@) is None,
        },
{
    let n = path.unicode_len();
    let slash = find_last(path, '/');
    let start: usize = match slash {
        Some(i) => i + 1,
        None => 0,
    };
    let dot = find_last(path, '.');
    proof {
        lemma_last_sep(path@, '/');
        lemma_last_sep(file_name_of(path@), '.');
        assert(file_name_of(path@) == path@.subrange(last_sep(path@, '/') + 1, n as int));
        assert(last_sep(path@, '/') + 1 == start as int);
        assert(forall|j: int|
            0 <= j < file_name_of(path@).len() ==> file_name_of(path@)[j] == path@[start + j]);
    }
    match dot {
        Some(d) => {
            if d > start {
                let e = path.substring_char(d + 1, n);
                proof {
                    let name = file_name_of(path@);
                    assert(name[d - start] == '.');
                    assert(last_sep(name, '.') == d - start);
                    assert(e@ =~= name.subrange(d - start + 1, name.len() as int));
                }
                Some(e)
            } else {
                proof {
                    let name = file_name_of(path@);
                    assert(forall|j: int| 1 <= j < name.len() ==> name[j] != '.');
                    assert(last_sep(name, '.') < 1);
                }
                None
            }
        },
        None => {
            proof {
                let name = file_name_of(path@);
                assert(forall|j: int| 0 <= j < name.len() ==> name[j] != '.');
                assert(last_sep(name, '.') == -1);
            }
            None
        },
    }
}

/// Whether two strings hold the same characters.
fn str_eq_chars(a: &str, b: &str) -> (r: bool)
    ensures
        r == (a@ == b@),
{
    let na = a.unicode_len();
    let nb = b.unicode_len();
    if na != nb {
        proof {
            assert(a@ != b@);
        }
        return false;
    }
    let mut i: usize = 0;
    while i < na
        invariant
            i <= na,
            na == a@.len(),
            na == b@.len(),
            forall|j: int| 0 <= j < i ==> a@[j] == b@[j],
        decreases na - i,
    {
        if a.get_char(i) != b.get_char(i) {
            return false;
        }
        i = i + 1;
    }
    proof {
        assert(a@ =~= b@);
    }
    true
}

/// The document that a JSON text parses to, or nothing when the text is not
/// a valid JSON object; it depends on the text alone.
pub uninterp spec fn json_doc(text: Seq<char>) -> Option<Seq<(Seq<char>, Node)>>;

/// The document that a TOML text parses to, or nothing when the text is not
/// a valid TOML table; it depends on the text alone.
pub uninterp spec fn toml_doc(text: Seq<char>) -> Option<Seq<(Seq<char>, Node)>>;

/// The parsed tree of the JSON library, declared so that the translation
/// below can take it; the library never looks inside such a value.
#[verifier::external_type_specification]
#[verifier::external_body]
pub struct ExJsonValue(serde_json::Value);

/// Translates a parsed tree into the library's document node, variant by
/// variant: null, booleans and strings are carried over, a number becomes its
/// canonical decimal rendering, and arrays and objects are translated element
/// by element. Relies on serde_json::Value exposing exactly these six
/// variants.
#[verifier::external_body]
fn value_from_json(v: serde_json::Value) -> ConfigValue {
    match v {
        serde_json::Value::Null => ConfigValue::Null,
        serde_json::Value::Bool(b) => ConfigValue::Bool(b),
        serde_json::Value::Number(n) => ConfigValue::Num(n.to_string()),
        serde_json::Value::String(s) => ConfigValue::Str(s),
        serde_json::Value::Array(a) => ConfigValue::Arr(a.into_iter().map(value_from_json).collect()),
        serde_json::Value::Object(o) => ConfigValue::Obj(
            o.into_iter().map(|(k, w)| (k, value_from_json(w))).collect(),
        ),
    }
}

/// Relies on serde_json::from_str::<serde_json::Map<String, serde_json::Value>>:
/// whether the text is a valid JSON object, and the document it parses to,
/// depend on the text alone, and the keys of every parsed object are unique,
/// since serde_json::Map holds one value per key.
#[verifier::external_body]
fn parse_json_text(text: &str) -> (r: Result<Vec<(String, ConfigValue)>, String>)
    ensures
        match r {
            Ok(d) => json_doc(text@) == Some(entry_nodes_of(d@)) && wf_entries(entry_nodes_of(d@)),
            Err(_) => json_doc(text@) is None,
        },
{
    match serde_json::from_str::<serde_json::Map<String, serde_json::Value>>(text) {
        Ok(m) => Ok(m.into_iter().map(|(k, v)| (k, value_from_json(v))).collect()),
        Err(e) => Err(e.to_string()),
    }
}

/// Relies on toml::from_str::<serde_json::Map<String, serde_json::Value>>:
/// whether the text is a valid TOML table, and the document it parses to,
/// depend on the text alone, and the keys of every parsed table are unique,
/// since serde_json::Map holds one value per key.
#[verifier::external_body]
fn parse_toml_text(text: &str) -> (r: Result<Vec<(String, ConfigValue)>, String>)
    ensures
        match r {
            Ok(d) => toml_doc(text@) == Some(entry_nodes_of(d@)) && wf_entries(entry_nodes_of(d@)),
            Err(_) => toml_doc(text@) is None,
        },
{
    match toml::from_str::<serde_json::Map<String, serde_json::Value>>(text) {
        Ok(m) => Ok(m.into_iter().map(|(k, v)| (k, value_from_json(v))).collect()),
        Err(e) => Err(e.to_string()),
    }
}

/// The document that loading a file at `path` with contents `text` yields:
/// the extension picks the format, and any other extension loads nothing.
pub open spec fn load_doc(path: Seq<char>, text: Seq<char>) -> Option<Seq<(Seq<char>, Node)>> {
    if extension_of(path) == Some("toml"@) {
        toml_doc(text)
    } else if extension_of(path) == Some("json"@) {
        json_doc(text)
    } else {
        None
    }
}

/// The error that loading a file at `path` with contents `text` must report
/// when it loads nothing.
pub open spec fn load_error_matches(path: Seq<char>, text: Seq<char>, e: Error) -> bool {
    if extension_of(path) == Some("toml"@) {
        &&& toml_doc(text) is None
        &&& e matches Error::ParseToml { path: p, message: _ } && p@ == path
    } else if extension_of(path) == Some("json"@) {
        &&& json_doc(text) is None
        &&& e matches Error::ParseJson { path: p, message: _ } && p@ == path
    } else {
        e matches Error::UnsupportedFileType { path: p } && p@ == path
    }
}

/// The models of a list of configuration files given as path and contents.
pub open spec fn file_views(fs: Seq<(String, String)>) -> Seq<(Seq<char>, Seq<char>)> {
    Seq::new(fs.len(), |i: int| (fs[i].0@, fs[i].1@))
}

/// What folding the files from position `i` on into the accumulator yields.
pub enum FoldOutcome {
    /// Every remaining file loaded and merged; the final document.
    Merged(Seq<(Seq<char>, Node)>),
    /// Two documents conflicted.
    Conflicted(Conflict),
    /// The file at this position failed to load.
    Unloadable(int),
}

/// Folds the files from position `i` on into `acc`, left to right: each file
/// is loaded by `load_doc` and merged into the accumulator by
/// `merge_entries`; the first failure aborts the fold.
pub open spec fn fold_files(
    acc: Seq<(Seq<char>, Node)>,
    files: Seq<(Seq<char>, Seq<char>)>,
    i: nat,
    merge_nested: bool,
    extend_array: bool,
) -> FoldOutcome
    decreases files.len() - i,
{
    if i >= files.len() {
        FoldOutcome::Merged(acc)
    } else {
        match load_doc(files[i as int].0, files[i as int].1) {
            None => FoldOutcome::Unloadable(i as int),
            Some(d) => match merge_entries(acc, d, merge_nested, extend_array) {
                Err(c) => FoldOutcome::Conflicted(c),
                Ok(acc2) => fold_files(acc2, files, i + 1, merge_nested, extend_array),
            },
        }
    }
}

/// Parses and merges a list of configuration files, each given as its path
/// and its contents, in order: the first file establishes the baseline and
/// every later file overrides or extends it under the given policy, starting
/// from an empty document. The result and each possible error are exactly
/// what `fold_files` says on the models.
pub fn parse_config_files(
    files: &Vec<(String, String)>,
    merge_nested: bool,
    extend_array: bool,
) -> (r: Result<Vec<(String, ConfigValue)>, Error>)
    ensures
        match r {
            Ok(m) => fold_files(
                Seq::empty(),
                file_views(files@),
                0,
                merge_nested,
                extend_array,
            ) == FoldOutcome::Merged(entry_nodes_of(m@)) && wf_entries(entry_nodes_of(m@)),
            Err(e) => match fold_files(
                Seq::empty(),
                file_views(files@),
                0,
                merge_nested,
                extend_array,
            ) {
                FoldOutcome::Merged(_) => false,
                FoldOutcome::Conflicted(c) => error_conflict(e) == Some(c),
                FoldOutcome::Unloadable(i) => load_error_matches(
                    files@[i].0@,
                    files@[i].1@,
                    e,
                ),
            },
        },
{
    let ghost fv = file_views(files@);
    let mut target: Vec<(String, ConfigValue)> = Vec::new();
    let mut idx: usize = 0;
    while idx < files.len()
        invariant
            idx <= files@.len(),
            fv == file_views(files@),
            wf_entries(entry_nodes_of(target@)),
            fold_files(entry_nodes_of(target@), fv, idx as nat, merge_nested, extend_array)
                == fold_files(Seq::empty(), fv, 0, merge_nested, extend_array),
        decreases files@.len() - idx,
    {
        let (path, text) = (&files[idx].0, &files[idx].1);
        let doc = match parse_config_file(path, text) {
            Ok(d) => d,
            Err(e) => {
                proof {
                    assert(fv[idx as int] == (files@[idx as int].0@, files@[idx as int].1@));
                }
                return Err(e);
            },
        };
        proof {
            lemma_merge_entries_wf(
                entry_nodes_of(target@),
                entry_nodes_of(doc@),
                merge_nested,
                extend_array,
            );
        }
        match crate::merge::merge_objects(target, doc, merge_nested, extend_array) {
            Ok(m) => {
                target = m;
            },
            Err(e) => {
                return Err(e);
            },
        }
        idx = idx + 1;
    }
    Ok(target)
}

/// Parses the contents of a single configuration file. The extension of
/// `path` picks the format: `.toml` or `.json`, and any other extension,
/// or none, is rejected as unsupported. Returns the parsed document exactly
/// when `load_doc` has one, and the matching error otherwise.
pub fn parse_config_file(path: &String, text: &String) -> (r: Result<Vec<(String, ConfigValue)>, Error>)
    ensures
        match r {
            Ok(d) => load_doc(path@, text@) == Some(entry_nodes_of(d@)) && wf_entries(
                entry_nodes_of(d@),
            ),
            Err(e) => load_doc(path@, text@) is None && load_error_matches(path@, text@, e),
        },
{
    match extension_exec(path.as_str()) {
        Some(e) => {
            if str_eq_chars(e, "toml") {
                match parse_toml_text(text.as_str()) {
                    Ok(d) => Ok(d),
                    Err(m) => Err(Error::ParseToml { path: path.clone(), message: m }),
                }
            } else if str_eq_chars(e, "json") {
                match parse_json_text(text.as_str()) {
                    Ok(d) => Ok(d),
                    Err(m) => Err(Error::ParseJson { path: path.clone(), message: m }),
                }
            } else {
                Err(Error::UnsupportedFileType { path: path.clone() })
            }
        },
        None => Err(Error::UnsupportedFileType { path: path.clone() }),
    }
}

} // verus!
