//! What the street ingest reads of a street-network dump, and which of its
//! elements a pedestrian may use.

use crate::text::str_eq;
use vstd::prelude::*;

verus! {

/// A key with its value, as attached to nodes and ways.
#[derive(Debug)]
pub struct Tag {
    pub key: String,
    pub value: String,
}

/// One element of a street-network dump. Coordinates are in nanodegrees.
#[derive(Debug)]
pub enum Element {
    Node { id: i64, lon: i64, lat: i64, tags: Vec<Tag> },
    DenseNode { id: i64, lon: i64, lat: i64 },
    Way { refs: Vec<i64>, tags: Vec<Tag> },
    Relation,
}

/// The values of `highway` that mark a way as closed to pedestrians.
pub open spec fn highway_is_closed(value: Seq<char>) -> bool {
    ||| value == "abandoned"@
    ||| value == "bus_guideway"@
    ||| value == "construction"@
    ||| value == "cycleway"@
    ||| value == "motor"@
    ||| value == "no"@
    ||| value == "planned"@
    ||| value == "platform"@
    ||| value == "proposed"@
    ||| value == "raceway"@
    ||| value == "razed"@
}

/// Whether `tag` has this key and this value.
pub open spec fn is_tag(tag: Tag, key: Seq<char>, value: Seq<char>) -> bool {
    tag.key@ == key && tag.value@ == value
}

/// A node is accepted unless it carries `foot=no`.
pub open spec fn node_is_walkable(tags: Seq<Tag>) -> bool {
    forall|i: int| 0 <= i < tags.len() ==> !is_tag(#[trigger] tags[i], "foot"@, "no"@)
}

/// A way is accepted when some `highway` tag of it has a value that is open
/// to pedestrians and it carries neither `foot=no` nor `service=private`.
pub open spec fn way_is_walkable(tags: Seq<Tag>) -> bool {
    &&& exists|i: int|
        0 <= i < tags.len() && (#[trigger] tags[i]).key@ == "highway"@ && !highway_is_closed(
            tags[i].value@,
        )
    &&& forall|i: int| 0 <= i < tags.len() ==> !is_tag(#[trigger] tags[i], "foot"@, "no"@)
    &&& forall|i: int| 0 <= i < tags.len() ==> !is_tag(#[trigger] tags[i], "service"@, "private"@)
}

/// Whether this value of `highway` closes a way to pedestrians.
fn is_closed_highway(value: &str) -> (closed: bool)
    ensures
        closed == highway_is_closed(value@),
{
    str_eq(value, "abandoned") || str_eq(value, "bus_guideway") || str_eq(value, "construction")
        || str_eq(value, "cycleway") || str_eq(value, "motor") || str_eq(value, "no") || str_eq(
        value,
        "planned",
    ) || str_eq(value, "platform") || str_eq(value, "proposed") || str_eq(value, "raceway")
        || str_eq(value, "razed")
}

/// Whether `tag` has this key and this value.
fn tag_is(tag: &Tag, key: &str, value: &str) -> (is: bool)
    ensures
        is == is_tag(*tag, key@, value@),
{
    str_eq(tag.key.as_str(), key) && str_eq(tag.value.as_str(), value)
}

/// Whether a node with these tags is taken into the graph.
pub fn is_walkable_node(tags: &Vec<Tag>) -> (walkable: bool)
    ensures
        walkable == node_is_walkable(tags@),
{
    let mut i: usize = 0;
    while i < tags.len()
        invariant
            i <= tags.len(),
            forall|j: int| 0 <= j < i ==> !is_tag(#[trigger] tags[j], "foot"@, "no"@),
        decreases tags.len() - i,
    {
        if tag_is(&tags[i], "foot", "no") {
            return false;
        }
        i += 1;
    }
    true
}

/// Whether a way with these tags is taken into the graph.
pub fn is_walkable_way(tags: &Vec<Tag>) -> (walkable: bool)
    ensures
        walkable == way_is_walkable(tags@),
{
    let mut is_highway_walkable = false;
    let mut foot_allowed = true;
    let mut service_allowed = true;
    let mut i: usize = 0;
    while i < tags.len()
        invariant
            i <= tags.len(),
            is_highway_walkable == exists|j: int|
                0 <= j < i && (#[trigger] tags[j]).key@ == "highway"@ && !highway_is_closed(
                    tags[j].value@,
                ),
            foot_allowed == forall|j: int|
                0 <= j < i ==> !is_tag(#[trigger] tags[j], "foot"@, "no"@),
            service_allowed == forall|j: int|
                0 <= j < i ==> !is_tag(#[trigger] tags[j], "service"@, "private"@),
        decreases tags.len() - i,
    {
        let tag = &tags[i];
        if str_eq(tag.key.as_str(), "highway") && !is_closed_highway(tag.value.as_str()) {
            is_highway_walkable = true;
        }
        if tag_is(tag, "foot", "no") {
            foot_allowed = false;
        }
        if tag_is(tag, "service", "private") {
            service_allowed = false;
        }
        i += 1;
    }
    is_highway_walkable && foot_allowed && service_allowed
}

} // verus!
