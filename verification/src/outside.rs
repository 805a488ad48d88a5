//! The calls this library makes into other crates.
//!
//! Nothing in this file is proved: each contract states what the called
//! function is documented to do, and the rest of the library is verified
//! against these statements.

use vstd::prelude::*;

verus! {

/// A JSON value of `serde_json`; its contents are not visible to proofs.
#[verifier::external_type_specification]
#[verifier::external_body]
pub struct ExJsonValue(serde_json::Value);

/// The strings that a JSON value holds, each under the sequence of object
/// keys that leads to it from the root.  A value that is itself a string
/// holds it under the empty sequence.
pub uninterp spec fn json_leaves(v: serde_json::Value) -> Map<Seq<Seq<char>>, Seq<char>>;

/// The value is made of strings and objects only, and every object in it,
/// except possibly the value itself, has at least one member.  Such a value
/// is determined by its `json_leaves`.
pub uninterp spec fn json_plain(v: serde_json::Value) -> bool;

/// What rendering `template` with handlebars in strict mode gives against a
/// plain JSON value with the given leaves: the rendered text, or the
/// description of the render error.
pub uninterp spec fn rendered(template: Seq<char>, leaves: Map<Seq<Seq<char>>, Seq<char>>) -> Result<
    Seq<char>,
    Seq<char>,
>;

/// Part `i` is keyed by the first segment of `p` and holds a leaf under the
/// rest of it.
pub open spec fn part_holds(parts: Seq<(Seq<char>, Map<Seq<Seq<char>>, Seq<char>>)>, i: int, p: Seq<Seq<char>>) -> bool {
    &&& 0 <= i < parts.len()
    &&& p.len() > 0
    &&& parts[i].0 == p[0]
    &&& parts[i].1.contains_key(p.skip(1))
}

/// The leaves of a group whose parts are given by key and leaves: each leaf
/// of a part, under the part's key followed by the leaf's own path.
pub open spec fn group_leaves(parts: Seq<(Seq<char>, Map<Seq<Seq<char>>, Seq<char>>)>) -> Map<
    Seq<Seq<char>>,
    Seq<char>,
> {
    Map::new(
        |p: Seq<Seq<char>>| exists|i: int| part_holds(parts, i, p),
        |p: Seq<Seq<char>>| parts[choose|i: int| part_holds(parts, i, p)].1[p.skip(1)],
    )
}

/// The members of an object by key and leaves.
pub open spec fn member_parts(members: Seq<(String, serde_json::Value)>) -> Seq<
    (Seq<char>, Map<Seq<Seq<char>>, Seq<char>>),
> {
    Seq::new(members.len(), |i: int| (members[i].0@, json_leaves(members[i].1)))
}

/// No two members share a key.
pub open spec fn distinct_keys(members: Seq<(String, serde_json::Value)>) -> bool {
    forall|i: int, j: int|
        0 <= i < members.len() && 0 <= j < members.len() && i != j ==> members[i].0@ != members[j].0@
}

/// The leaves of a JSON string: its text, under the empty path.
pub open spec fn text_leaves(text: Seq<char>) -> Map<Seq<Seq<char>>, Seq<char>> {
    Map::empty().insert(Seq::empty(), text)
}

/// Every member is plain and holds at least one string.
pub open spec fn plain_members(members: Seq<(String, serde_json::Value)>) -> bool {
    forall|i: int|
        0 <= i < members.len() ==> json_plain(#[trigger] members[i].1) && exists|p: Seq<Seq<char>>|
            json_leaves(members[i].1).contains_key(p)
}

/// The text, or the error's description, as sequences of characters.
pub open spec fn outcome_view(out: Result<String, String>) -> Result<Seq<char>, Seq<char>> {
    match out {
        Ok(text) => Ok(text@),
        Err(cause) => Err(cause@),
    }
}

/// `serde_json::Value::String`: the JSON string with the text of `s`, which
/// is plain and holds that text and nothing else.
#[verifier::external_body]
pub(crate) fn json_text(s: &str) -> (out: serde_json::Value)
    ensures
        json_plain(out),
        json_leaves(out) == text_leaves(s@),
{
    serde_json::Value::String(s.to_owned())
}

/// `serde_json::Value::Object` over a `serde_json::Map` collected from the
/// members: the JSON object with exactly the given members, whose keys
/// differ.  It holds what its members hold, each under the member's key,
/// and is plain when every member is plain and holds a string.
#[verifier::external_body]
pub(crate) fn json_object(members: Vec<(String, serde_json::Value)>) -> (out: serde_json::Value)
    requires
        distinct_keys(members@),
    ensures
        json_leaves(out) == group_leaves(member_parts(members@)),
        plain_members(members@) ==> json_plain(out),
{
    serde_json::Value::Object(members.into_iter().collect())
}

/// `handlebars::Handlebars::render_template` on a new registry in strict
/// mode, against data that is plain: the rendered text, or the description
/// of the render error.  The contract claims that the outcome depends on
/// the template and on the strings that the data holds, and on nothing
/// else.
#[verifier::external_body]
pub(crate) fn render_strict(template: &str, data: &serde_json::Value) -> (out: Result<String, String>)
    requires
        json_plain(*data),
    ensures
        outcome_view(out) == rendered(template@, json_leaves(*data)),
{
    let mut registry = handlebars::Handlebars::new();
    registry.set_strict_mode(true);
    match registry.render_template(template, data) {
        Ok(text) => Ok(text),
        Err(e) => Err(e.to_string()),
    }
}

/// The combinations that take one element of each list of `dims`, in the
/// order of `dims`: the last list varies fastest.  With no list at all
/// there is one combination, the empty one.
pub open spec fn product<T>(dims: Seq<Seq<T>>) -> Seq<Seq<T>>
    decreases dims.len(),
{
    if dims.len() == 0 {
        seq![Seq::<T>::empty()]
    } else {
        let head = dims[0];
        let tail = product(dims.drop_first());
        Seq::new(
            head.len() * tail.len(),
            |k: int| seq![head[k / (tail.len() as int)]] + tail[k % (tail.len() as int)],
        )
    }
}

/// `itertools::Itertools::multi_cartesian_product` over the lists of `dims`:
/// every combination of one element per list, the last list varying
/// fastest; the empty combination alone where there is no list, and no
/// combination where a list is empty.
#[verifier::external_body]
pub(crate) fn cartesian_product(dims: &Vec<Vec<usize>>) -> (out: Vec<Vec<usize>>)
    ensures
        out.deep_view() == product(dims.deep_view()),
{
    itertools::Itertools::multi_cartesian_product(dims.iter().map(|d| d.iter().copied())).collect()
}

} // verus!
