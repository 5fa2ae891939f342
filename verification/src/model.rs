use vstd::prelude::*;
use crate::params::SpecPair;

verus! {

broadcast use vstd::seq::group_seq_axioms;

/// Byte that separates path segments.
pub const SLASH: u8 = 47;

/// Byte that opens a parameter segment.
pub const COLON: u8 = 58;

/// Byte that opens a catch-all segment.
pub const STAR: u8 = 42;

/// Kind of a tree node.
#[derive(Clone, Copy, PartialEq, Eq, Structural, Debug)]
pub enum NodeType {
    /// The root of a tree.
    Root,
    /// A literal byte sequence, matched exactly.
    Static,
    /// One path segment captured under a name.
    Param,
    /// The whole remainder of the path captured under a name.
    CatchAll,
}

/// Mathematical shape of a tree node, shared by the build-time and the frozen tree.
pub ghost struct NodeView {
    pub prefix: Seq<u8>,
    pub node_type: NodeType,
    pub wild_child: bool,
    pub indices: Seq<u8>,
    pub children: Seq<NodeView>,
    pub endpoint: bool,
    pub priority: u64,
}

/// Structural invariants local to one node.
pub open spec fn wf_here(v: NodeView) -> bool {
    &&& ((v.node_type == NodeType::Param || v.node_type == NodeType::CatchAll) ==> v.prefix.len()
        > 0)
    &&& (v.node_type == NodeType::CatchAll ==> v.children.len() == 0 && !v.wild_child
        && v.endpoint && v.indices.len() == 0)
    &&& if v.wild_child {
        &&& v.children.len() == 1
        &&& v.indices.len() == 0
        &&& (v.children[0].node_type == NodeType::Param || v.children[0].node_type
            == NodeType::CatchAll)
    } else {
        &&& v.indices.len() == v.children.len()
        &&& (forall|i: int|
            0 <= i < v.children.len() ==> (#[trigger] v.children[i]).node_type
                == NodeType::Static)
        &&& (forall|i: int| 0 <= i < v.children.len() ==> (#[trigger] v.children[i]).prefix.len() > 0)
        &&& (forall|i: int|
            0 <= i < v.children.len() ==> (#[trigger] v.children[i]).prefix[0] == v.indices[i])
        &&& (forall|i: int, j: int|
            #![trigger v.indices[i], v.indices[j]]
            0 <= i < j < v.indices.len() ==> v.indices[i] != v.indices[j])
    }
}

/// Structural invariants of a whole subtree.
pub open spec fn wf(v: NodeView) -> bool
    decreases v,
{
    &&& wf_here(v)
    &&& (forall|i: int| 0 <= i < v.children.len() ==> wf(#[trigger] v.children[i]))
}

/// Siblings stand in descending priority order, and every child has counted
/// at least one route through it.
pub open spec fn ordered_here(v: NodeView) -> bool {
    &&& (forall|i: int| 0 <= i < v.children.len() ==> (#[trigger] v.children[i]).priority >= 1)
    &&& (forall|i: int, j: int|
        #![trigger v.children[i], v.children[j]]
        0 <= i < j < v.children.len() ==> v.children[i].priority >= v.children[j].priority)
}

/// The sibling priority order of the whole subtree: after every insertion the
/// children of each node are kept sorted by descending priority.
pub open spec fn ordered(v: NodeView) -> bool
    decreases v,
{
    &&& ordered_here(v)
    &&& (forall|i: int| 0 <= i < v.children.len() ==> ordered(#[trigger] v.children[i]))
}

/// Position of the first occurrence of `b` in `s`, if any.
pub open spec fn find_index(s: Seq<u8>, b: u8) -> Option<int>
    decreases s.len(),
{
    if s.len() == 0 {
        None
    } else if s[0] == b {
        Some(0int)
    } else {
        match find_index(s.drop_first(), b) {
            Some(i) => Some(i + 1),
            None => None,
        }
    }
}

/// Length of the leading segment of `path`: the bytes before the first `/`,
/// or all of `path` when it has none.
pub open spec fn seg_len(path: Seq<u8>) -> int {
    match find_index(path, SLASH) {
        Some(i) => i,
        None => path.len() as int,
    }
}

/// What matching `path` against the subtree `v` yields: the extracted
/// bindings in path order, or `None` when no registered pattern applies.
pub open spec fn spec_at(v: NodeView, path: Seq<u8>) -> Option<Seq<SpecPair>>
    decreases v,
{
    match v.node_type {
        NodeType::Param => {
            let e = seg_len(path);
            match spec_descend(v.children, v.indices, v.wild_child, v.endpoint, path.skip(e)) {
                Some(ps) => Some(seq![(v.prefix, path.take(e))] + ps),
                None => None,
            }
        },
        NodeType::CatchAll => Some(seq![(v.prefix, path)]),
        _ => {
            if path.len() >= v.prefix.len() && path.take(v.prefix.len() as int) == v.prefix {
                spec_descend(v.children, v.indices, v.wild_child, v.endpoint, path.skip(v.prefix.len() as int))
            } else {
                None
            }
        },
    }
}

/// What the children of a node yield for the part of the path that the node
/// itself did not consume: the endpoint for an exhausted path, a static child
/// picked by the next byte, or the wildcard child.
pub open spec fn spec_descend(
    children: Seq<NodeView>,
    indices: Seq<u8>,
    wild_child: bool,
    endpoint: bool,
    rest: Seq<u8>,
) -> Option<Seq<SpecPair>>
    decreases children,
{
    if rest.len() == 0 {
        if endpoint {
            Some(Seq::empty())
        } else if wild_child && children.len() == 1 && children[0].node_type == NodeType::CatchAll {
            spec_at(children[0], rest)
        } else {
            None
        }
    } else {
        if wild_child && children.len() == 1 {
            spec_at(children[0], rest)
        } else if !wild_child {
            match find_index(indices, rest[0]) {
                Some(i) => if 0 <= i < children.len() {
                    spec_at(children[i], rest)
                } else {
                    None
                },
                None => None,
            }
        } else {
            None
        }
    }
}

/// The leading segment never reaches past the path's end.
pub proof fn lemma_seg_len_bounds(path: Seq<u8>)
    ensures
        0 <= seg_len(path) <= path.len(),
{
    lemma_find_index_ok(path, SLASH);
}

/// What a node matches depends only on its prefix, kind, children, indices,
/// wildcard flag and endpoint flag; its priority counter plays no part, and
/// the root behaves as a static node.
pub proof fn lemma_spec_at_shape(a: NodeView, b: NodeView, path: Seq<u8>)
    requires
        a.prefix == b.prefix,
        a.wild_child == b.wild_child,
        a.indices == b.indices,
        a.children == b.children,
        a.endpoint == b.endpoint,
        a.node_type == b.node_type || ((a.node_type == NodeType::Root || a.node_type
            == NodeType::Static) && (b.node_type == NodeType::Root || b.node_type
            == NodeType::Static)),
    ensures
        spec_at(a, path) == spec_at(b, path),
{
}

/// Matching is deterministic and side-effect-free: the outcome of a match is
/// a function of the frozen tree's shape and the path bytes alone, so two
/// trees of equal shape give equal results for equal paths, and repeated
/// matches of one path against one tree always agree.
pub proof fn lemma_match_deterministic(a: NodeView, b: NodeView, path: Seq<u8>)
    requires
        a == b,
    ensures
        spec_at(a, path) == spec_at(b, path),
{
}

/// A catch-all node consumes the whole remaining path, separators included,
/// and binds it, empty or not, under the node's name.
pub proof fn lemma_catch_all_consumes_all(v: NodeView, path: Seq<u8>)
    requires
        v.node_type == NodeType::CatchAll,
    ensures
        spec_at(v, path) == Some(seq![(v.prefix, path)]),
{
}

/// A parameter node never binds across a segment boundary: the value it
/// extracts holds no separator byte.
pub proof fn lemma_param_value_has_no_separator(v: NodeView, path: Seq<u8>)
    requires
        v.node_type == NodeType::Param,
        spec_at(v, path) is Some,
    ensures
        spec_at(v, path).unwrap().len() >= 1,
        spec_at(v, path).unwrap()[0].0 == v.prefix,
        forall|k: int|
            0 <= k < spec_at(v, path).unwrap()[0].1.len() ==> spec_at(v, path).unwrap()[0].1[k]
                != SLASH,
{
    lemma_find_index_ok(path, SLASH);
    let e = seg_len(path);
    assert(forall|k: int| 0 <= k < e ==> path[k] != SLASH);
    assert(spec_at(v, path).unwrap()[0].1 == path.take(e));
}

/// `find_index` returns the position of the first hit.
pub proof fn lemma_find_index_found(s: Seq<u8>, b: u8, i: int)
    requires
        0 <= i < s.len(),
        s[i] == b,
        forall|j: int| 0 <= j < i ==> s[j] != b,
    ensures
        find_index(s, b) == Some(i),
    decreases i,
{
    if i > 0 {
        assert(forall|j: int| 0 <= j < i - 1 ==> s.drop_first()[j] != b);
        lemma_find_index_found(s.drop_first(), b, i - 1);
    }
}

/// `find_index` finds nothing when nothing is there.
pub proof fn lemma_find_index_none(s: Seq<u8>, b: u8)
    requires
        forall|j: int| 0 <= j < s.len() ==> s[j] != b,
    ensures
        find_index(s, b) is None,
    decreases s.len(),
{
    if s.len() > 0 {
        lemma_find_index_none(s.drop_first(), b);
    }
}

/// A found position lies in range and holds `b`, with no hit before it.
pub proof fn lemma_find_index_ok(s: Seq<u8>, b: u8)
    ensures
        match find_index(s, b) {
            Some(i) => 0 <= i < s.len() && s[i] == b && (forall|j: int| 0 <= j < i ==> s[j] != b),
            None => forall|j: int| 0 <= j < s.len() ==> s[j] != b,
        },
    decreases s.len(),
{
    if s.len() > 0 && s[0] != b {
        lemma_find_index_ok(s.drop_first(), b);
        assert(forall|j: int| 1 <= j < s.len() ==> s[j] == s.drop_first()[j - 1]);
    }
}

} // verus!
