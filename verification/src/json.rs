//! JSON documents as a flat list of values.
//!
//! Each value names the array or object it stands in by position, so that a walk over a
//! document is a walk over positions.

use serde_json::Value;
use vstd::prelude::*;

use crate::lists;
use crate::text;

verus! {

/// A value of a document.
pub struct JsonNode {
    /// The position of the array or object that the value stands in.
    pub parent: Option<usize>,
    /// The key of a value in an object; the items of an array have none.
    pub key: Option<String>,
    /// The text of a string.
    pub text: Option<String>,
}

pub struct JsonNodeView {
    pub parent: Option<int>,
    pub key: Option<Seq<char>>,
    pub text: Option<Seq<char>>,
}

impl View for JsonNode {
    type V = JsonNodeView;

    open spec fn view(&self) -> JsonNodeView {
        JsonNodeView {
            parent: match self.parent {
                Some(p) => Some(p as int),
                None => None,
            },
            key: text::text_of(self.key),
            text: text::text_of(self.text),
        }
    }
}

/// The document behind a list of values.
pub open spec fn document(nodes: Seq<JsonNode>) -> Seq<JsonNodeView> {
    nodes.map_values(|n: JsonNode| n@)
}

/// The values that `serde_json::from_slice` finds in bytes: the whole document first, and the
/// items of each array in their order; none where it rejects the bytes.
pub uninterp spec fn json_nodes(data: Seq<u8>) -> Option<Seq<JsonNodeView>>;

/// `serde_json::from_slice` reads the bytes as a JSON document or rejects them, and depends on
/// nothing but the bytes. Of each value this keeps where it stands, and `as_str`.
#[verifier::external_body]
pub(crate) fn parse_json(data: &[u8]) -> (r: Option<Vec<JsonNode>>)
    ensures
        match r {
            Some(nodes) => json_nodes(data@) == Some(document(nodes@)),
            None => json_nodes(data@) is None,
        },
{
    let root: Value = serde_json::from_slice(data).ok()?;
    let (mut nodes, mut rest) = (Vec::new(), vec![(None, None, &root)]);
    while let Some((parent, key, v)) = rest.pop() {
        let at = Some(nodes.len());
        rest.extend(v.as_array().into_iter().flatten().rev().map(|x| (at, None, x)));
        rest.extend(v.as_object().into_iter().flatten().map(|(k, x)| (at, Some(k), x)));
        let text = v.as_str().map(str::to_string);
        nodes.push(JsonNode { parent, key: key.cloned(), text });
    }
    Some(nodes)
}

/// The position of the value with that key in the object at `p`.
pub open spec fn member(doc: Seq<JsonNodeView>, p: int, key: Seq<char>) -> Option<int> {
    lists::first(
        lists::positions(
            doc.len() as int,
            |i: int| doc[i].parent == Some(p) && doc[i].key == Some(key),
        ),
    )
}

/// The string with that key in the object at `p`.
pub open spec fn member_text(doc: Seq<JsonNodeView>, p: int, key: Seq<char>) -> Option<Seq<char>> {
    match member(doc, p, key) {
        Some(i) => doc[i].text,
        None => None,
    }
}

/// The positions of the values in the array at `p`.
pub open spec fn items(doc: Seq<JsonNodeView>, p: int) -> Seq<int> {
    lists::positions(doc.len() as int, |i: int| doc[i].parent == Some(p) && doc[i].key is None)
}

fn stands_in(n: &JsonNode, p: usize) -> (r: bool)
    ensures
        r == (n@.parent == Some(p as int)),
{
    match n.parent {
        Some(q) => q == p,
        None => false,
    }
}

/// Finds the value with that key in the object at `p`.
pub fn find_member(nodes: &[JsonNode], p: usize, key: &str) -> (r: Option<usize>)
    ensures
        match r {
            Some(i) => i < nodes@.len() && member(document(nodes@), p as int, key@) == Some(
                i as int,
            ),
            None => member(document(nodes@), p as int, key@) is None,
        },
{
    let ghost doc = document(nodes@);
    let ghost f = |i: int| doc[i].parent == Some(p as int) && doc[i].key == Some(key@);
    let mut found: Option<usize> = None;
    let mut i: usize = 0;
    while i < nodes.len()
        invariant
            i <= nodes@.len(),
            doc == document(nodes@),
            f == (|i: int| doc[i].parent == Some(p as int) && doc[i].key == Some(key@)),
            match found {
                Some(k) => k < nodes@.len() && lists::first(lists::positions(i as int, f)) == Some(
                    k as int,
                ),
                None => lists::first(lists::positions(i as int, f)) is None,
            },
        decreases nodes@.len() - i,
    {
        assert(doc[i as int] == nodes@[i as int]@);
        let same_key: bool = match &nodes[i].key {
            Some(k) => text::same(k.as_str(), key),
            None => false,
        };
        if found.is_none() && same_key && stands_in(&nodes[i], p) {
            found = Some(i);
        }
        i = i + 1;
    }
    found
}

/// Finds the string with that key in the object at `p`.
pub fn find_member_text<'a>(nodes: &'a [JsonNode], p: usize, key: &str) -> (r: Option<&'a String>)
    ensures
        match r {
            Some(s) => member_text(document(nodes@), p as int, key@) == Some(s@),
            None => member_text(document(nodes@), p as int, key@) is None,
        },
{
    match find_member(nodes, p, key) {
        Some(i) => {
            assert(document(nodes@)[i as int] == nodes@[i as int]@);
            match &nodes[i].text {
                Some(s) => Some(s),
                None => None,
            }
        },
        None => None,
    }
}

/// Finds the values in the array at `p`.
pub fn find_items(nodes: &[JsonNode], p: usize) -> (r: Vec<usize>)
    ensures
        lists::ints(r@) == items(document(nodes@), p as int),
        forall|k: int| 0 <= k < r@.len() ==> #[trigger] r@[k] < nodes@.len(),
{
    let ghost doc = document(nodes@);
    let ghost f = |i: int| doc[i].parent == Some(p as int) && doc[i].key is None;
    let mut out: Vec<usize> = Vec::new();
    let mut i: usize = 0;
    while i < nodes.len()
        invariant
            i <= nodes@.len(),
            doc == document(nodes@),
            f == (|i: int| doc[i].parent == Some(p as int) && doc[i].key is None),
            lists::ints(out@) == lists::positions(i as int, f),
            forall|k: int| 0 <= k < out@.len() ==> #[trigger] out@[k] < nodes@.len(),
        decreases nodes@.len() - i,
    {
        let ghost before = out@;
        assert(doc[i as int] == nodes@[i as int]@);
        if nodes[i].key.is_none() && stands_in(&nodes[i], p) {
            out.push(i);
            assert(lists::ints(out@) =~= lists::ints(before).push(i as int));
        }
        i = i + 1;
    }
    out
}

/// A member of an object is the first value with that key in it, and a value in another object,
/// or with another key, is none.
pub proof fn the_first_member_counts(doc: Seq<JsonNodeView>, p: int, key: Seq<char>, i: int)
    requires
        0 <= i < doc.len(),
        doc[i].parent == Some(p),
        doc[i].key == Some(key),
        forall|j: int|
            0 <= j < i ==> (#[trigger] doc[j]).parent != Some(p) || doc[j].key != Some(key),
    ensures
        member(doc, p, key) == Some(i),
        member_text(doc, p, key) == doc[i].text,
{
    let f = |k: int| doc[k].parent == Some(p) && doc[k].key == Some(key);
    lists::the_first_position_is_the_least(doc.len() as int, f);
    assert(f(i));
    match member(doc, p, key) {
        Some(k) => {
            assert(f(k));
            assert(doc[k].parent == Some(p));
        },
        None => {},
    }
}

/// Where no value of an object has a key, the object has no such member.
pub proof fn absent_members_are_none(doc: Seq<JsonNodeView>, p: int, key: Seq<char>)
    requires
        forall|j: int|
            0 <= j < doc.len() ==> (#[trigger] doc[j]).parent != Some(p) || doc[j].key != Some(
                key,
            ),
    ensures
        member(doc, p, key) is None,
        member_text(doc, p, key) is None,
{
    let f = |k: int| doc[k].parent == Some(p) && doc[k].key == Some(key);
    lists::the_first_position_is_the_least(doc.len() as int, f);
    match member(doc, p, key) {
        Some(k) => {
            assert(f(k));
            assert(doc[k].parent == Some(p));
        },
        None => {},
    }
}

/// The items of an array are all values in it, in their order.
pub proof fn items_are_all_of_their_array(doc: Seq<JsonNodeView>, p: int, i: int)
    requires
        0 <= i < doc.len(),
    ensures
        items(doc, p).contains(i) <==> doc[i].parent == Some(p) && doc[i].key is None,
        forall|j: int, k: int|
            0 <= j < k < items(doc, p).len() ==> #[trigger] items(doc, p)[j] < #[trigger] items(
                doc,
                p,
            )[k],
{
    lists::positions_are_all(
        doc.len() as int,
        |i: int| doc[i].parent == Some(p) && doc[i].key is None,
    );
}

} // verus!
