//! What an OpenCode session file on disk says: which files are session files,
//! and the session id and directory that a JSON session file records.

use vstd::prelude::*;

verus! {

/// A JSON document's top level as the session reader sees it: `None` when the
/// text is not JSON; `Some(None)` when it is JSON but not an object; else the
/// object's members, each with its value's text when that value is a string.
pub type JsonTopLevel = Option<Option<Seq<(Seq<char>, Option<Seq<char>>)>>>;

/// What `serde_json::from_str::<serde_json::Value>` makes of a text, as
/// `JsonTopLevel` shows it.
pub uninterp spec fn json_top_level(raw: Seq<char>) -> JsonTopLevel;

/// Calls `serde_json::from_str::<serde_json::Value>` and reports the top
/// level of what it parsed: its result is named by `json_top_level`, and
/// nothing more is claimed of it.
#[verifier::external_body]
fn parse_json_top_level(raw: &str) -> (r: Option<Option<Vec<(String, Option<String>)>>>)
    ensures
        r.deep_view() == json_top_level(raw@),
{
    match serde_json::from_str::<serde_json::Value>(raw) {
        Ok(serde_json::Value::Object(map)) => Some(Some(map.into_iter().map(|(key, value)| match value {
            serde_json::Value::String(text) => (key, Some(text)),
            _ => (key, None),
        }).collect())),
        Ok(_) => Some(None),
        Err(_) => None,
    }
}

/// The value of the first member named `key`: `None` when there is none,
/// `Some(None)` when its value is not a string.
pub open spec fn member_text(members: Seq<(Seq<char>, Option<Seq<char>>)>, key: Seq<char>) -> Option<
    Option<Seq<char>>,
>
    decreases members.len(),
{
    if members.len() == 0 {
        None
    } else if members[0].0 == key {
        Some(members[0].1)
    } else {
        member_text(members.drop_first(), key)
    }
}

/// The id and directory a session file records, given the top level of its
/// JSON: its `id` member and its `directory` member (or, when there is no
/// `directory` member, its `path` member) must both be strings.
pub open spec fn document_session_fields(document: JsonTopLevel) -> Option<(Seq<char>, Seq<char>)> {
    match document {
        None => None,
        Some(document) => {
            let members = match document {
                Some(members) => members,
                None => Seq::empty(),
            };
            let directory = match member_text(members, "directory"@) {
                Some(value) => Some(value),
                None => member_text(members, "path"@),
            };
            match (member_text(members, "id"@), directory) {
                (Some(Some(id)), Some(Some(directory))) => Some((id, directory)),
                _ => None,
            }
        },
    }
}

/// The id and directory a session file's text records.
pub open spec fn session_fields_spec(raw: Seq<char>) -> Option<(Seq<char>, Seq<char>)> {
    document_session_fields(json_top_level(raw))
}

/// The value of the first member named `key`, as `member_text` gives it.
fn lookup_member(members: &Vec<(String, Option<String>)>, key: &String) -> (r: Option<Option<String>>)
    ensures
        r.deep_view() == member_text(members.deep_view(), key@),
{
    let ghost all = members.deep_view();
    let mut i: usize = 0;
    assert(all.skip(0) =~= all);
    while i < members.len()
        invariant
            i <= members@.len(),
            all == members.deep_view(),
            member_text(all, key@) == member_text(all.skip(i as int), key@),
        decreases members@.len() - i,
    {
        assert(all.skip(i as int)[0] == all[i as int]);
        assert(all.skip(i as int).drop_first() =~= all.skip(i + 1));
        if members[i].0 == *key {
            return match &members[i].1 {
                Some(text) => Some(Some(text.clone())),
                None => Some(None),
            };
        }
        i = i + 1;
    }
    None
}

/// The id and directory that a parsed JSON session file records, if it
/// records both.
pub fn session_fields_from_document(document: Option<Option<Vec<(String, Option<String>)>>>) -> (r:
    Option<(String, String)>)
    ensures
        r.deep_view() == document_session_fields(document.deep_view()),
{
    let document = match document {
        None => return None,
        Some(document) => document,
    };
    let members = match document {
        Some(members) => members,
        None => Vec::new(),
    };
    let directory = match lookup_member(&members, &String::from_str("directory")) {
        Some(value) => Some(value),
        None => lookup_member(&members, &String::from_str("path")),
    };
    match (lookup_member(&members, &String::from_str("id")), directory) {
        (Some(Some(id)), Some(Some(directory))) => Some((id, directory)),
        _ => None,
    }
}

/// The id and directory that a JSON session file records, if it records both.
pub fn session_fields_from_json(raw: &str) -> (r: Option<(String, String)>)
    ensures
        r.deep_view() == session_fields_spec(raw@),
{
    session_fields_from_document(parse_json_top_level(raw))
}

/// The index of the last `.` in `name`, if any.
pub open spec fn last_dot(name: Seq<char>) -> Option<int>
    decreases name.len(),
{
    if name.len() == 0 {
        None
    } else if name.last() == '.' {
        Some(name.len() - 1)
    } else {
        last_dot(name.drop_last())
    }
}

/// The extension of a file name, as `Path::extension` documents it: none
/// without a `.`, none when the only `.` is the first character, else what
/// follows the last `.`.
pub open spec fn file_extension(name: Seq<char>) -> Option<Seq<char>> {
    match last_dot(name) {
        Some(k) => if k == 0 {
            None
        } else {
            Some(name.skip(k + 1))
        },
        None => None,
    }
}

/// Whether a file name has the extension `json`.
pub fn is_json_file_name(name: &str) -> (r: bool)
    ensures
        r == (file_extension(name@) == Some("json"@)),
{
    let len = name.unicode_len();
    let mut k: usize = len;
    assert(name@.take(len as int) =~= name@);
    while k > 0 && name.get_char(k - 1) != '.'
        invariant
            len == name@.len(),
            k <= len,
            last_dot(name@) == last_dot(name@.take(k as int)),
        decreases k,
    {
        assert(name@.take(k as int).drop_last() =~= name@.take(k - 1));
        k = k - 1;
    }
    if k <= 1 {
        if k == 1 {
            assert(name@.take(1).last() == name@[0]);
        }
        // No `.`, or only a leading one.
        return false;
    }
    assert(last_dot(name@) == Some(k - 1));
    let json = "json";
    proof {
        reveal_strlit("json");
    }
    assert(json@.len() == 4);
    if len - k != 4 {
        assert(name@.skip(k as int).len() != "json"@.len());
        return false;
    }
    let mut j: usize = 0;
    while j < 4
        invariant
            len == name@.len(),
            len - k == 4,
            j <= 4,
            json@ == "json"@,
            json@.len() == 4,
            file_extension(name@) == Some(name@.skip(k as int)),
            forall|m: int| 0 <= m < j ==> name@[k + m] == json@[m],
        decreases 4 - j,
    {
        if name.get_char(k + j) != json.get_char(j) {
            assert(name@.skip(k as int)[j as int] != "json"@[j as int]);
            return false;
        }
        j = j + 1;
    }
    assert(name@.skip(k as int) =~= "json"@);
    true
}

} // verus!
