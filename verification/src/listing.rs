//! Versions in the listing of a repository folder.

use vstd::prelude::*;

use crate::text;

verus! {

/// Two string members of each entry of a list.
pub type Entries = Seq<(Option<Seq<char>>, Option<Seq<char>>)>;

/// What `serde_json` reads from a text: the message of its error where the
/// text is no JSON; nothing where the JSON is no array; else, for each element
/// of the array, its members under two keys where they are strings.
pub uninterp spec fn json_members(
    body: Seq<char>,
    first: Seq<char>,
    second: Seq<char>,
) -> Result<Option<Seq<(Option<Seq<char>>, Option<Seq<char>>)>>, Seq<char>>;

/// `serde_json::from_str` into a `Value`, handed out through `as_array`, the
/// index operator and `as_str`. The parse is a function of the text alone, and
/// the result is what the name says.
#[verifier::external_body]
fn read_members(body: &str, first: &str, second: &str) -> (r: Result<
    Option<Vec<(Option<String>, Option<String>)>>,
    String,
>)
    ensures
        match r {
            Ok(Some(list)) => json_members(body@, first@, second@) == Ok::<Option<Entries>, Seq<char>>(
                Some(list.deep_view()),
            ),
            Ok(None) => json_members(body@, first@, second@) == Ok::<Option<Entries>, Seq<char>>(None),
            Err(e) => json_members(body@, first@, second@) == Err::<Option<Entries>, Seq<char>>(e@),
        },
{
    let value: serde_json::Value = match serde_json::from_str(body) {
        Ok(v) => v,
        Err(e) => return Err(e.to_string()),
    };
    let text = |v: &serde_json::Value| v.as_str().map(String::from);
    Ok(value.as_array().map(|list| list.iter().map(|e| (text(&e[first]), text(&e[second]))).collect()))
}

/// Why a listing holds no versions.
#[derive(Debug)]
pub enum ListingError {
    Malformed(String),
    Unexpected,
}

impl ListingError {
    pub open spec fn text(self) -> Seq<char> {
        match self {
            ListingError::Malformed(m) => m@,
            ListingError::Unexpected => "unexpected GitHub response"@,
        }
    }

    pub fn message(&self) -> (r: String)
        ensures
            r@ == self.text(),
    {
        match self {
            ListingError::Malformed(m) => m.clone(),
            ListingError::Unexpected => "unexpected GitHub response".to_owned(),
        }
    }
}

/// An entry is a folder whose name starts with a digit.
pub open spec fn version_of(e: (Option<Seq<char>>, Option<Seq<char>>)) -> Option<Seq<char>> {
    match e {
        (Some(kind), Some(name)) => if kind == "dir"@ && name.len() > 0 && '0' <= name[0] <= '9' {
            Some(name)
        } else {
            None
        },
        _ => None,
    }
}

/// The versions among the first `n` entries.
pub open spec fn versions_in(entries: Entries, n: int) -> Seq<Seq<char>>
    decreases n,
{
    if n <= 0 {
        Seq::empty()
    } else {
        match version_of(entries[n - 1]) {
            Some(v) => versions_in(entries, n - 1).push(v),
            None => versions_in(entries, n - 1),
        }
    }
}

/// The versions among entries of (type, name), in their order.
pub fn versions(entries: &Vec<(Option<String>, Option<String>)>) -> (r: Vec<String>)
    ensures
        r.deep_view() == versions_in(entries.deep_view(), entries@.len() as int),
{
    let ghost es = entries.deep_view();
    let mut out: Vec<String> = Vec::new();
    let mut i: usize = 0;
    assert(out.deep_view() =~= Seq::empty());
    while i < entries.len()
        invariant
            es == entries.deep_view(),
            i <= entries@.len(),
            out.deep_view() == versions_in(es, i as int),
        decreases entries@.len() - i,
    {
        let e = &entries[i];
        assert(e.deep_view() == es[i as int]);
        if let (Some(kind), Some(name)) = (&e.0, &e.1) {
            let c = text::chars_of(name.as_str());
            if text::same(kind.as_str(), "dir") && c.len() > 0 && '0' <= c[0] && c[0] <= '9' {
                text::push_text(&mut out, name.clone());
            }
        }
        i += 1;
    }
    out
}

/// The binding versions in the body of a folder listing, in its order.
pub fn remote_versions(body: &str) -> (r: Result<Vec<String>, ListingError>)
    ensures
        match r {
            Ok(v) => json_members(body@, "type"@, "name"@) matches Ok(Some(entries)) && v.deep_view() == versions_in(
                entries,
                entries.len() as int,
            ),
            Err(ListingError::Unexpected) => json_members(body@, "type"@, "name"@) matches Ok(None),
            Err(ListingError::Malformed(e)) => json_members(body@, "type"@, "name"@) == Err::<
                Option<Entries>,
                Seq<char>,
            >(e@),
        },
{
    match read_members(body, "type", "name") {
        Ok(Some(entries)) => Ok(versions(&entries)),
        Ok(None) => Err(ListingError::Unexpected),
        Err(e) => Err(ListingError::Malformed(e)),
    }
}

} // verus!
