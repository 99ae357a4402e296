//! JSON documents, taken apart one level at a time: a document is text, and
//! so is each value in it.

use vstd::prelude::*;

use crate::text;
use crate::text::same_text;

verus! {

/// One member of a JSON object: its key, and its value as JSON text.
#[derive(Debug, Clone)]
pub struct JsonMember {
    pub key: String,
    pub value: String,
}

/// Keys and values of a list of members.
pub open spec fn member_texts(members: Seq<JsonMember>) -> Seq<(Seq<char>, Seq<char>)> {
    members.map_values(|m: JsonMember| (m.key@, m.value@))
}

/// What reading a document as an object gave.
pub open spec fn object_view(r: Result<Option<Vec<JsonMember>>, String>) -> Result<
    Option<Seq<(Seq<char>, Seq<char>)>>,
    Seq<char>,
> {
    match r {
        Ok(Some(members)) => Ok(Some(member_texts(members@))),
        Ok(None) => Ok(None),
        Err(e) => Err(e@),
    }
}

/// The members of the object that a document is, each value as JSON text;
/// nothing where the document is no object; the parser's message where it is
/// not JSON.
pub uninterp spec fn object_members(document: Seq<u8>) -> Result<
    Option<Seq<(Seq<char>, Seq<char>)>>,
    Seq<char>,
>;

/// The members of a JSON object, by `serde_json::from_slice` into a
/// `serde_json::Value` and its `as_object`. They are a function of the
/// document.
#[verifier::external_body]
pub(crate) fn json_object(document: &[u8]) -> (r: Result<Option<Vec<JsonMember>>, String>)
    ensures
        object_view(r) == object_members(document@),
{
    let value: serde_json::Value = serde_json::from_slice(document).map_err(|e| e.to_string())?;
    Ok(value.as_object().map(|members| {
        members.iter().map(|(k, v)| JsonMember { key: k.clone(), value: v.to_string() }).collect()
    }))
}

/// The texts of a list, where there is one.
pub open spec fn opt_texts(list: Option<Vec<String>>) -> Option<Seq<Seq<char>>> {
    match list {
        Some(list) => Some(text::texts(list@)),
        None => None,
    }
}

/// The items of the array that a JSON text is, each as JSON text; nothing
/// where it is anything else.
pub uninterp spec fn array_items(value: Seq<char>) -> Option<Seq<Seq<char>>>;

/// The items of a JSON array, by `serde_json::from_str` into a
/// `Vec<serde_json::Value>`. They are a function of the text.
#[verifier::external_body]
pub(crate) fn json_array(value: &str) -> (r: Option<Vec<String>>)
    ensures
        opt_texts(r) == array_items(value@),
{
    let items: Vec<serde_json::Value> = serde_json::from_str(value).ok()?;
    Some(items.iter().map(|item| item.to_string()).collect())
}

/// The string that a JSON text is; nothing where it is anything else.
pub uninterp spec fn string_value(value: Seq<char>) -> Option<Seq<char>>;

/// The string that a JSON text is, by `serde_json::from_str` into a `String`.
/// It is a function of the text.
#[verifier::external_body]
pub(crate) fn json_string(value: &str) -> (r: Option<String>)
    ensures
        text::opt_text(r) == string_value(value@),
{
    serde_json::from_str::<String>(value).ok()
}

/// The strings of the array of strings that a JSON text is; nothing where it
/// is anything else.
pub uninterp spec fn string_list(value: Seq<char>) -> Option<Seq<Seq<char>>>;

/// The strings of a JSON array of strings, by `serde_json::from_str` into a
/// `Vec<String>`. They are a function of the text.
#[verifier::external_body]
pub(crate) fn json_string_list(value: &str) -> (r: Option<Vec<String>>)
    ensures
        opt_texts(r) == string_list(value@),
{
    serde_json::from_str::<Vec<String>>(value).ok()
}

/// The value of the first member from place `i` on that has the given key.
pub open spec fn member_from(
    members: Seq<(Seq<char>, Seq<char>)>,
    key: Seq<char>,
    i: int,
) -> Option<Seq<char>>
    decreases members.len() - i,
{
    if i >= members.len() {
        None
    } else if members[i].0 == key {
        Some(members[i].1)
    } else {
        member_from(members, key, i + 1)
    }
}

/// The value of the member that has the given key.
pub open spec fn member(members: Seq<(Seq<char>, Seq<char>)>, key: Seq<char>) -> Option<Seq<char>> {
    member_from(members, key, 0)
}

/// The value of the member that has the given key.
pub fn get_member<'a>(members: &'a [JsonMember], key: &str) -> (r: Option<&'a str>)
    ensures
        match r {
            Some(value) => Some(value@),
            None => None,
        } == member(member_texts(members@), key@),
{
    let ghost all = member_texts(members@);
    for i in 0..members.len()
        invariant
            all == member_texts(members@),
            member(all, key@) == member_from(all, key@, i as int),
    {
        assert(all[i as int] == (members@[i as int].key@, members@[i as int].value@));
        if same_text(members[i].key.as_str(), key) {
            return Some(members[i].value.as_str());
        }
    }
    None
}

/// The string that the member with the given key is.
pub open spec fn string_member(
    members: Seq<(Seq<char>, Seq<char>)>,
    key: Seq<char>,
) -> Option<Seq<char>> {
    match member(members, key) {
        Some(value) => string_value(value),
        None => None,
    }
}

/// The string that the member with the given key is.
pub fn get_string(members: &[JsonMember], key: &str) -> (r: Option<String>)
    ensures
        text::opt_text(r) == string_member(member_texts(members@), key@),
{
    match get_member(members, key) {
        Some(value) => json_string(value),
        None => None,
    }
}

/// The member under a key is the first of that key, and there is one exactly
/// when some member has the key.
pub proof fn law_first_member_of_a_key_counts(
    members: Seq<(Seq<char>, Seq<char>)>,
    key: Seq<char>,
)
    ensures
        member(members, key) is None <==> forall|k: int|
            0 <= k < members.len() ==> (#[trigger] members[k]).0 != key,
        member(members, key) matches Some(value) ==> exists|k: int|
            {
                &&& 0 <= k < members.len()
                &&& #[trigger] members[k] == (key, value)
                &&& forall|j: int| 0 <= j < k ==> (#[trigger] members[j]).0 != key
            },
        string_member(members, key) == match member(members, key) {
            Some(value) => string_value(value),
            None => None,
        },
{
    lemma_member_from(members, key, 0);
}

proof fn lemma_member_from(members: Seq<(Seq<char>, Seq<char>)>, key: Seq<char>, i: int)
    requires
        0 <= i <= members.len(),
    ensures
        member_from(members, key, i) is None <==> forall|k: int|
            i <= k < members.len() ==> (#[trigger] members[k]).0 != key,
        member_from(members, key, i) matches Some(value) ==> exists|k: int|
            {
                &&& i <= k < members.len()
                &&& #[trigger] members[k] == (key, value)
                &&& forall|j: int| i <= j < k ==> (#[trigger] members[j]).0 != key
            },
    decreases members.len() - i,
{
    if i < members.len() {
        if members[i].0 == key {
            assert(members[i] == (key, member_from(members, key, i)->0));
        } else {
            lemma_member_from(members, key, i + 1);
        }
    }
}

} // verus!
