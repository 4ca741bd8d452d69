//! From the nodes and ways of a map to the graph and the spatial index
//! over it.

use crate::graph::{group_by_source, ways_edges, Graph, Node};
use crate::osm;
use crate::spatialindex::SpatialIndex;
use std::collections::HashSet;
use vstd::prelude::*;
use vstd::std_specs::convert::FromSpecImpl;
use vstd::string::StringExecFns;

verus! {

/// The error type of `osmpbf`. It is carried through as it is; nothing
/// is known of what it holds.
#[verifier::external_type_specification]
#[verifier::external_body]
pub struct ExOsmpbfError(osmpbf::Error);

/// An error that says only that something below failed.
pub struct HighlevelError;

/// Why a map could not be turned into a graph.
#[derive(Debug)]
pub enum ParseError {
    /// The map names more nodes than a graph can hold.
    Simple,
    /// The map file could not be read or decoded.
    OSMPBFError(osmpbf::Error),
}

impl From<ParseError> for HighlevelError {
    /// Forgets the cause.
    fn from(value: ParseError) -> (e: HighlevelError) {
        HighlevelError
    }
}

impl FromSpecImpl<ParseError> for HighlevelError {
    open spec fn obeys_from_spec() -> bool {
        true
    }

    open spec fn from_spec(value: ParseError) -> HighlevelError {
        HighlevelError
    }
}

impl From<osmpbf::Error> for ParseError {
    /// Keeps the failure of `osmpbf` as the cause.
    fn from(value: osmpbf::Error) -> (e: ParseError) {
        ParseError::OSMPBFError(value)
    }
}

impl FromSpecImpl<osmpbf::Error> for ParseError {
    open spec fn obeys_from_spec() -> bool {
        true
    }

    open spec fn from_spec(value: osmpbf::Error) -> ParseError {
        ParseError::OSMPBFError(value)
    }
}

/// The text that `osmpbf::Error` displays as. Nothing is claimed of it.
#[verifier::external_body]
fn osmpbf_error_text(e: &osmpbf::Error) -> (text: String) {
    format!("{}", e)
}

impl ParseError {
    /// The error in words. For a failure below, the words of that failure
    /// follow a fixed opening.
    pub fn to_string(&self) -> (text: String)
        ensures
            self is Simple ==> text@ == "some simple error"@,
            self is OSMPBFError ==> text@.len() >= "underlying osmbpf error: "@.len()
                && text@.subrange(0, "underlying osmbpf error: "@.len() as int)
                == "underlying osmbpf error: "@,
    {
        match self {
            ParseError::Simple => "some simple error".to_owned(),
            ParseError::OSMPBFError(e) => {
                let cause = osmpbf_error_text(e);
                let text = "underlying osmbpf error: ".to_owned().concat(cause.as_str());
                assert(text@.subrange(0, "underlying osmbpf error: "@.len() as int)
                    =~= "underlying osmbpf error: "@);
                text
            },
        }
    }
}

/// Whether a way with tags under the given keys is a road to route
/// over: it is one exactly if one of the keys is `highway`.
pub fn is_road(keys: &Vec<String>) -> (r: bool)
    ensures
        r == exists|i: int| 0 <= i < keys@.len() && (#[trigger] keys@[i])@ == "highway"@,
{
    let wanted = "highway".to_owned();
    let mut i: usize = 0;
    while i < keys.len()
        invariant
            i <= keys@.len(),
            wanted@ == "highway"@,
            forall|j: int| 0 <= j < i ==> (#[trigger] keys@[j])@ != "highway"@,
        decreases keys@.len() - i,
    {
        if keys[i] == wanted {
            return true;
        }
        i = i + 1;
    }
    false
}

/// Whether a way through the nodes `refs` can be routed over, given the
/// identifiers `ids` of the nodes that the map holds: it can exactly if
/// both ends of each of its segments are among them. A way of fewer than
/// two nodes has no segment and is kept.
pub fn way_is_known(ids: &HashSet<i64>, refs: &Vec<i64>) -> (keep: bool)
    ensures
        keep == forall|p: int|
            0 <= p < refs@.len() - 1 ==> ids@.contains(#[trigger] refs@[p]) && ids@.contains(
                refs@[p + 1],
            ),
{
    broadcast use vstd::std_specs::hash::group_hash_axioms;
    let segments: usize = if refs.len() == 0 {
        0
    } else {
        refs.len() - 1
    };
    let mut p: usize = 0;
    while p < segments
        invariant
            p <= segments,
            segments + 1 == refs@.len() || (segments == 0 && refs@.len() == 0),
            forall|q: int|
                0 <= q < p ==> ids@.contains(#[trigger] refs@[q]) && ids@.contains(refs@[q + 1]),
        decreases segments - p,
    {
        if !ids.contains(&refs[p]) || !ids.contains(&refs[p + 1]) {
            assert(!(ids@.contains(refs@[p as int]) && ids@.contains(refs@[p + 1])));
            return false;
        }
        p = p + 1;
    }
    true
}

/// Whether one of the first `upto` nodes of a way has the identifier.
pub open spec fn way_names(way: osm::Way, upto: int, id: i64) -> bool {
    exists|p: int| 0 <= p < upto && p < way.nodes@.len() && (#[trigger] way.nodes@[p]).0 == id
}

/// Whether one of the first `upto` ways passes through a node with the
/// identifier.
pub open spec fn ways_name(ways: Seq<osm::Way>, upto: int, id: i64) -> bool {
    exists|w: int|
        0 <= w < upto && w < ways.len() && way_names(#[trigger] ways[w], ways[w].nodes@.len() as int, id)
}

/// The nodes that some way passes through, in their order among `nodes`.
pub open spec fn used_nodes(nodes: Seq<Node>, ways: Seq<osm::Way>) -> Seq<Node>
    decreases nodes.len(),
{
    if nodes.len() == 0 {
        Seq::empty()
    } else if ways_name(ways, ways.len() as int, nodes.last().id.0) {
        used_nodes(nodes.drop_last(), ways).push(nodes.last())
    } else {
        used_nodes(nodes.drop_last(), ways)
    }
}

/// One more node of a way adds its identifier to those the way names.
proof fn lemma_way_names_next(way: osm::Way, p: int, id: i64)
    requires
        0 <= p < way.nodes@.len(),
    ensures
        way_names(way, p + 1, id) <==> way_names(way, p, id) || way.nodes@[p].0 == id,
{
    if way_names(way, p + 1, id) {
        let q = choose|q: int|
            0 <= q < p + 1 && q < way.nodes@.len() && (#[trigger] way.nodes@[q]).0 == id;
        if q < p {
            assert(way_names(way, p, id));
        }
    }
    if way_names(way, p, id) {
        let q = choose|q: int|
            0 <= q < p && q < way.nodes@.len() && (#[trigger] way.nodes@[q]).0 == id;
        assert(way.nodes@[q].0 == id);
    }
    if way.nodes@[p].0 == id {
        assert(way_names(way, p + 1, id));
    }
}

/// One more way adds the identifiers it names to those the ways name.
proof fn lemma_ways_name_next(ways: Seq<osm::Way>, w: int, id: i64)
    requires
        0 <= w < ways.len(),
    ensures
        ways_name(ways, w + 1, id) <==> ways_name(ways, w, id) || way_names(
            ways[w],
            ways[w].nodes@.len() as int,
            id,
        ),
{
    if ways_name(ways, w + 1, id) {
        let v = choose|v: int|
            0 <= v < w + 1 && v < ways.len() && way_names(
                #[trigger] ways[v],
                ways[v].nodes@.len() as int,
                id,
            );
        if v < w {
            assert(ways_name(ways, w, id));
        }
    }
    if ways_name(ways, w, id) {
        let v = choose|v: int|
            0 <= v < w && v < ways.len() && way_names(
                #[trigger] ways[v],
                ways[v].nodes@.len() as int,
                id,
            );
        assert(way_names(ways[v], ways[v].nodes@.len() as int, id));
    }
    if way_names(ways[w], ways[w].nodes@.len() as int, id) {
        assert(ways_name(ways, w + 1, id));
    }
}

/// The identifiers of the nodes that the ways pass through.
fn used_ids(ways: &Vec<osm::Way>) -> (ids: HashSet<i64>)
    ensures
        forall|id: i64| ids@.contains(id) <==> ways_name(ways@, ways@.len() as int, id),
{
    broadcast use vstd::std_specs::hash::group_hash_axioms;
    let mut ids: HashSet<i64> = HashSet::new();
    let mut w: usize = 0;
    while w < ways.len()
        invariant
            w <= ways@.len(),
            forall|id: i64| ids@.contains(id) <==> ways_name(ways@, w as int, id),
        decreases ways@.len() - w,
    {
        let way = &ways[w];
        let mut p: usize = 0;
        while p < way.nodes.len()
            invariant
                w < ways@.len(),
                *way == ways@[w as int],
                p <= way.nodes@.len(),
                forall|id: i64|
                    ids@.contains(id) <==> ways_name(ways@, w as int, id) || way_names(
                        *way,
                        p as int,
                        id,
                    ),
            decreases way.nodes@.len() - p,
        {
            let key: i64 = way.nodes[p].0;
            let ghost before = ids@;
            ids.insert(key);
            proof {
                assert forall|id: i64|
                    ids@.contains(id) <==> ways_name(ways@, w as int, id) || way_names(
                        *way,
                        p + 1,
                        id,
                    ) by {
                    lemma_way_names_next(*way, p as int, id);
                    assert(before.contains(id) <==> ways_name(ways@, w as int, id) || way_names(
                        *way,
                        p as int,
                        id,
                    ));
                }
            }
            p = p + 1;
        }
        proof {
            assert forall|id: i64| ids@.contains(id) <==> ways_name(ways@, w + 1, id) by {
                lemma_ways_name_next(ways@, w as int, id);
            }
        }
        w = w + 1;
    }
    ids
}

/// Builds the graph and the spatial index of a map from its nodes and
/// from the ways to route over, each with the distances of its segments.
///
/// The graph's nodes are those that some way passes through, in the
/// order given; its edges are the ones the ways yield, as `Graph::build`
/// says; the index holds the same nodes. The call fails with
/// `ParseError::Simple` exactly when there are more such nodes than a
/// graph can hold.
pub fn parse_map(nodes: Vec<Node>, ways: Vec<osm::Way>) -> (r: Result<
    (Graph, SpatialIndex),
    ParseError,
>)
    ensures
        r is Ok <==> used_nodes(nodes@, ways@).len() <= u32::MAX,
        r matches Ok((graph, index)) ==> {
            &&& graph@.wf()
            &&& index.wf()
            &&& graph@.nodes == used_nodes(nodes@, ways@)
            &&& graph@.adj == group_by_source(
                graph@.nodes.len(),
                ways_edges(graph@.index, ways@, ways@.len()),
            )
            &&& index@ == graph@.nodes.map_values(|n: Node| n.location)
        },
        r matches Err(e) ==> e is Simple,
{
    broadcast use vstd::std_specs::hash::group_hash_axioms;
    let ids = used_ids(&ways);
    let mut used: Vec<Node> = Vec::new();
    let mut i: usize = 0;
    while i < nodes.len()
        invariant
            i <= nodes@.len(),
            forall|id: i64| ids@.contains(id) <==> ways_name(ways@, ways@.len() as int, id),
            used@ == used_nodes(nodes@.take(i as int), ways@),
        decreases nodes@.len() - i,
    {
        let node: Node = nodes[i];
        proof {
            assert(nodes@.take(i + 1).drop_last() == nodes@.take(i as int));
            assert(nodes@.take(i + 1).last() == node);
        }
        if ids.contains(&node.id.0) {
            used.push(node);
        }
        i = i + 1;
    }
    proof {
        assert(nodes@.take(nodes@.len() as int) == nodes@);
    }
    if used.len() > u32::MAX as usize {
        return Err(ParseError::Simple);
    }
    let index = SpatialIndex::build(&used);
    let graph = Graph::build(used, ways);
    Ok((graph, index))
}

} // verus!
