use vstd::prelude::*;
use crate::model::{NodeType, NodeView, wf, wf_here, ordered, ordered_here, SLASH, COLON, STAR,
    seg_len, spec_at, find_index, lemma_seg_len_bounds, lemma_find_index_ok,
    lemma_spec_at_shape};
use crate::frozen::{ConstNode, const_view, const_views, lemma_const_views};
use crate::bytes::{copy_bytes, sub_to_vec, span_eq, seg_end, common_len, vec_eq_span};
use crate::params::SpecPair;

verus! {

broadcast use vstd::std_specs::vec::group_vec_axioms, vstd::seq::group_seq_axioms;

/// Registration-time failure: the pattern is structurally invalid, or it
/// contends with the shape of an already registered pattern.
#[derive(Clone, Copy, PartialEq, Eq, Structural, Debug)]
pub enum InsertError {
    /// A `:` or `*` stands elsewhere than at the start of a segment.
    InvalidWildcard,
    /// A `:` or `*` segment carries no name.
    EmptyWildcardName,
    /// A catch-all segment is not the final segment of the pattern.
    CatchAllNotLast,
    /// Two wildcard segments of the pattern share one name.
    DuplicateParamName,
    /// A static branch meets a wildcard branch at the same position, or two
    /// wildcards of different name or kind meet.
    Conflict,
}

/// Mutable tree node used while routes are registered.
pub struct Node {
    pub prefix: Vec<u8>,
    pub node_type: NodeType,
    pub wild_child: bool,
    pub indices: Vec<u8>,
    pub children: Vec<Node>,
    pub endpoint: bool,
    pub priority: u64,
}

/// The mathematical shape of a build-time node.
pub open spec fn node_view(n: Node) -> NodeView
    decreases n,
{
    NodeView {
        prefix: n.prefix@,
        node_type: n.node_type,
        wild_child: n.wild_child,
        indices: n.indices@,
        children: node_views(n.children@),
        endpoint: n.endpoint,
        priority: n.priority,
    }
}

/// The shapes of a sequence of build-time nodes.
pub open spec fn node_views(s: Seq<Node>) -> Seq<NodeView>
    decreases s,
{
    if s.len() == 0 {
        Seq::empty()
    } else {
        seq![node_view(s[0])] + node_views(s.drop_first())
    }
}

/// `node_views` maps `node_view` over the sequence, position by position.
pub proof fn lemma_node_views(s: Seq<Node>)
    ensures
        node_views(s).len() == s.len(),
        forall|i: int| 0 <= i < s.len() ==> node_views(s)[i] == node_view(s[i]),
    decreases s,
{
    if s.len() > 0 {
        lemma_node_views(s.drop_first());
        assert(forall|i: int| 1 <= i < s.len() ==> node_views(s)[i] == node_views(
            s.drop_first(),
        )[i - 1]);
    }
}

impl View for Node {
    type V = NodeView;

    open spec fn view(&self) -> NodeView {
        node_view(*self)
    }
}

/// A node that no insertion has touched yet.
pub open spec fn fresh(v: NodeView) -> bool {
    v.prefix.len() == 0 && v.children.len() == 0 && !v.endpoint && !v.wild_child
}

/// Whether `b` opens a wildcard segment.
pub open spec fn is_wild_byte(b: u8) -> bool {
    b == COLON || b == STAR
}

/// Every wildcard marker stands at the start of a segment.
pub open spec fn wild_starts_ok(p: Seq<u8>) -> bool {
    forall|i: int| #![trigger p[i]]
        0 <= i < p.len() && is_wild_byte(p[i]) ==> i == 0 || p[i - 1] == SLASH
}

/// Every wildcard marker is followed by at least one name byte.
pub open spec fn wild_names_ok(p: Seq<u8>) -> bool {
    forall|i: int| #![trigger p[i]]
        0 <= i < p.len() && is_wild_byte(p[i]) ==> i + 1 < p.len() && p[i + 1] != SLASH
}

/// No segment separator follows a catch-all marker.
pub open spec fn catch_all_last(p: Seq<u8>) -> bool {
    forall|i: int, j: int| #![trigger p[i], p[j]]
        0 <= i < j < p.len() && p[i] == STAR ==> p[j] != SLASH
}

/// The name of the wildcard segment whose marker stands at `i`.
pub open spec fn wild_name(p: Seq<u8>, i: int) -> Seq<u8> {
    let rest = p.skip(i + 1);
    rest.take(seg_len(rest))
}

/// All wildcard segments of the pattern carry pairwise distinct names.
pub open spec fn no_dup_names(p: Seq<u8>) -> bool {
    forall|i: int, j: int| #![trigger p[i], p[j]]
        0 <= i < j < p.len() && is_wild_byte(p[i]) && is_wild_byte(p[j]) ==> wild_name(p, i)
            != wild_name(p, j)
}

/// The verdict on a pattern's own structure: the first reason to reject it,
/// or `None` when it is well formed.
pub open spec fn spec_check(p: Seq<u8>) -> Option<InsertError> {
    if !wild_starts_ok(p) {
        Some(InsertError::InvalidWildcard)
    } else if !wild_names_ok(p) {
        Some(InsertError::EmptyWildcardName)
    } else if !catch_all_last(p) {
        Some(InsertError::CatchAllNotLast)
    } else if !no_dup_names(p) {
        Some(InsertError::DuplicateParamName)
    } else {
        None
    }
}

/// A pattern that `spec_check` accepts.
pub open spec fn valid_pattern(p: Seq<u8>) -> bool {
    spec_check(p) is None
}

/// The sibling order of `v`, disturbed at one position: the child at `fi`
/// may have grown past its left neighbours, everything else is in order.
pub open spec fn ordered_but(v: NodeView, fi: int) -> bool {
    &&& (forall|k: int| 0 <= k < v.children.len() ==> (#[trigger] v.children[k]).priority >= 1)
    &&& (forall|a: int, b: int|
        #![trigger v.children[a], v.children[b]]
        0 <= a < b < v.children.len() && b != fi ==> v.children[a].priority
            >= v.children[b].priority)
    &&& (forall|b: int|
        fi < b < v.children.len() ==> v.children[fi].priority >= (#[trigger] v.children[b]).priority)
    &&& (forall|k: int| 0 <= k < v.children.len() ==> ordered(#[trigger] v.children[k]))
}

/// Position of the first wildcard marker at or after `from`.
pub open spec fn next_wild(p: Seq<u8>, from: int) -> int
    decreases p.len() - from when 0 <= from <= p.len()
{
    if from >= p.len() {
        p.len() as int
    } else if is_wild_byte(p[from]) {
        from
    } else {
        next_wild(p, from + 1)
    }
}

/// `next_wild` stays within the pattern and skips exactly the literal bytes.
pub proof fn lemma_next_wild_bounds(p: Seq<u8>, from: int)
    requires
        0 <= from <= p.len(),
    ensures
        from <= next_wild(p, from) <= p.len(),
        forall|j: int| from <= j < next_wild(p, from) ==> !is_wild_byte(#[trigger] p[j]),
        next_wild(p, from) < p.len() ==> is_wild_byte(p[next_wild(p, from)]),
    decreases p.len() - from,
{
    if from < p.len() && !is_wild_byte(p[from]) {
        lemma_next_wild_bounds(p, from + 1);
    }
}

/// A scan that stopped at the first wildcard found `next_wild`.
pub proof fn lemma_next_wild_found(p: Seq<u8>, from: int, k: int)
    requires
        0 <= from <= k <= p.len(),
        forall|j: int| from <= j < k ==> !is_wild_byte(#[trigger] p[j]),
        k < p.len() ==> is_wild_byte(p[k]),
    ensures
        next_wild(p, from) == k,
    decreases k - from,
{
    if from < k {
        lemma_next_wild_found(p, from + 1, k);
    }
}

/// What the single pattern tail from `from` on matches: the bindings a path
/// yields when it instantiates the tail, or `None` when it does not.  A
/// literal run must be present byte for byte; a `:name` segment binds one
/// nonempty-path segment up to the next `/`; a `*name` segment binds the
/// whole remainder, empty or not.
pub open spec fn tail_match(p: Seq<u8>, from: int, path: Seq<u8>) -> Option<Seq<SpecPair>>
    decreases p.len() - from when 0 <= from <= p.len() via tail_match_dec
{
    if from == p.len() {
        if path.len() == 0 {
            Some(Seq::empty())
        } else {
            None
        }
    } else if p[from] == COLON {
        if path.len() == 0 {
            None
        } else {
            let e = from + 1 + wild_name(p, from).len();
            match tail_match(p, e, path.skip(seg_len(path))) {
                Some(ps) => Some(seq![(wild_name(p, from), path.take(seg_len(path)))] + ps),
                None => None,
            }
        }
    } else if p[from] == STAR {
        Some(seq![(wild_name(p, from), path)])
    } else {
        let k = next_wild(p, from);
        if path.len() >= k - from && path.take(k - from) == p.subrange(from, k) {
            tail_match(p, k, path.skip(k - from))
        } else {
            None
        }
    }
}

#[via_fn]
proof fn tail_match_dec(p: Seq<u8>, from: int, path: Seq<u8>) {
    if 0 <= from < p.len() {
        if p[from] == COLON {
            lemma_seg_len_bounds(p.skip(from + 1));
        } else if p[from] != STAR {
            lemma_next_wild_bounds(p, from);
        }
    }
}

/// The wildcard name starting after position `q` is the plain subrange up to `e`.
proof fn lemma_wild_name_sub(p: Seq<u8>, q: int, e: int)
    requires
        0 <= q,
        q + 1 <= e <= p.len(),
        e - (q + 1) == seg_len(p.skip(q + 1)),
    ensures
        wild_name(p, q) == p.subrange(q + 1, e),
{
    assert(wild_name(p, q) =~= p.subrange(q + 1, e));
}

/// Checks the structure of a pattern, before any tree is touched.
#[verifier::loop_isolation(false)]
fn check_pattern(p: &[u8]) -> (r: Option<InsertError>)
    ensures
        r == spec_check(p@),
{
    let n = p.len();
    let mut i0: usize = 0;
    while i0 < n
        invariant
            0 <= i0 <= n,
            forall|q: int| #![trigger p@[q]]
                0 <= q < i0 && is_wild_byte(p@[q]) ==> (q == 0 || p@[q - 1] == SLASH),
        decreases n - i0,
    {
        if (p[i0] == COLON || p[i0] == STAR) && !(i0 == 0 || p[i0 - 1] == SLASH) {
            assert(!wild_starts_ok(p@));
            return Some(InsertError::InvalidWildcard);
        }
        i0 += 1;
    }
    assert(wild_starts_ok(p@));
    let mut i: usize = 0;
    while i < n
        invariant
            0 <= i <= n,
            forall|q: int| #![trigger p@[q]]
                0 <= q < i && is_wild_byte(p@[q]) ==> q + 1 < n && p@[q + 1] != SLASH,
        decreases n - i,
    {
        if (p[i] == COLON || p[i] == STAR) && (i + 1 == n || p[i + 1] == SLASH) {
            assert(!wild_names_ok(p@));
            return Some(InsertError::EmptyWildcardName);
        }
        i += 1;
    }
    assert(wild_names_ok(p@));
    let mut has_star = false;
    let mut star_at: usize = 0;
    let mut i2: usize = 0;
    while i2 < n
        invariant
            0 <= i2 <= n,
            has_star ==> star_at < i2 && p@[star_at as int] == STAR,
            !has_star ==> forall|j: int| 0 <= j < i2 ==> p@[j] != STAR,
            has_star ==> forall|j: int| 0 <= j < star_at ==> p@[j] != STAR,
            has_star ==> forall|j: int| star_at < j < i2 ==> p@[j] != SLASH,
        decreases n - i2,
    {
        if has_star && p[i2] == SLASH {
            assert(!catch_all_last(p@));
            return Some(InsertError::CatchAllNotLast);
        }
        if !has_star && p[i2] == STAR {
            has_star = true;
            star_at = i2;
        }
        i2 += 1;
    }
    assert(catch_all_last(p@)) by {
        if has_star {
            assert(forall|j: int| #![trigger p@[j]]
                0 <= j < p@.len() && p@[j] == STAR ==> star_at <= j);
        }
    }
    let mut wilds: Vec<usize> = Vec::new();
    let mut i3: usize = 0;
    while i3 < n
        invariant
            0 <= i3 <= n,
            forall|k: int|
                0 <= k < wilds@.len() ==> (#[trigger] wilds@[k]) < i3 && is_wild_byte(
                    p@[wilds@[k] as int],
                ),
            forall|q: int| #![trigger p@[q]]
                0 <= q < i3 && is_wild_byte(p@[q]) ==> exists|k: int|
                    0 <= k < wilds@.len() && wilds@[k] == q,
            forall|k: int, l: int|
                #![trigger wilds@[k], wilds@[l]]
                0 <= k < l < wilds@.len() ==> wilds@[k] < wilds@[l],
        decreases n - i3,
    {
        if p[i3] == COLON || p[i3] == STAR {
            let ghost before = wilds@;
            wilds.push(i3);
            proof {
                assert(wilds@[wilds@.len() - 1] == i3);
                assert(forall|k: int| 0 <= k < before.len() ==> wilds@[k] == before[k]);
            }
        }
        i3 += 1;
    }
    let w = wilds.len();
    let mut a: usize = 0;
    while a < w
        invariant
            0 <= a <= w,
            w == wilds@.len(),
            forall|k: int, l: int|
                #![trigger wilds@[k], wilds@[l]]
                0 <= k < l < w && k < a ==> wild_name(p@, wilds@[k] as int) != wild_name(
                    p@,
                    wilds@[l] as int,
                ),
        decreases w - a,
    {
        let qa = wilds[a];
        let ea = seg_end(p, qa + 1);
        let mut bx: usize = a + 1;
        while bx < w
            invariant
                a < bx <= w,
                qa == wilds@[a as int],
                a < w,
                qa < n,
                qa + 1 <= ea <= n,
                ea - (qa + 1) == seg_len(p@.skip(qa + 1)),
                forall|l: int|
                    a < l < bx ==> wild_name(p@, wilds@[a as int] as int) != wild_name(
                        p@,
                        (#[trigger] wilds@[l]) as int,
                    ),
            decreases w - bx,
        {
            let qb = wilds[bx];
            let eb = seg_end(p, qb + 1);
            proof {
                lemma_wild_name_sub(p@, qa as int, ea as int);
                lemma_wild_name_sub(p@, qb as int, eb as int);
            }
            if span_eq(p, qa + 1, ea, qb + 1, eb) {
                proof {
                    assert(qa < qb);
                    assert(is_wild_byte(p@[qa as int]) && is_wild_byte(p@[qb as int]));
                    assert(!no_dup_names(p@));
                }
                return Some(InsertError::DuplicateParamName);
            }
            bx += 1;
        }
        a += 1;
    }
    assert(no_dup_names(p@)) by {
        assert forall|i: int, j: int|
            0 <= i < j < p@.len() && is_wild_byte(#[trigger] p@[i]) && is_wild_byte(
                #[trigger] p@[j],
            ) implies wild_name(p@, i) != wild_name(p@, j) by {
            assert(exists|k: int| 0 <= k < wilds@.len() && wilds@[k] == i);
            assert(exists|l: int| 0 <= l < wilds@.len() && wilds@[l] == j);
            let k = choose|k: int| 0 <= k < wilds@.len() && wilds@[k] == i;
            let l = choose|l: int| 0 <= l < wilds@.len() && wilds@[l] == j;
            if l < k {
                assert(wilds@[l] < wilds@[k]);
                assert(false);
            }
            assert(k < l);
        }
    }
    None
}

impl Node {
    /// A fresh root, ready for its first insertion.
    pub fn new() -> (r: Node)
        ensures
            wf(r@),
            ordered(r@),
            fresh(r@),
            r@.node_type == NodeType::Root,
            r@.priority == 0,
            r@.indices.len() == 0,
    {
        Node {
            prefix: Vec::new(),
            node_type: NodeType::Root,
            wild_child: false,
            indices: Vec::new(),
            children: Vec::new(),
            endpoint: false,
            priority: 0,
        }
    }

    /// Freezes the tree into its immutable matching form, shape for shape.
    pub fn freeze(&self) -> (r: ConstNode)
        ensures
            r@ == self@,
        decreases self@,
    {
        let mut kids: Vec<ConstNode> = Vec::new();
        let n = self.children.len();
        let mut i: usize = 0;
        proof {
            lemma_node_views(self.children@);
        }
        while i < n
            invariant
                n == self.children@.len(),
                node_views(self.children@).len() == n,
                0 <= i <= n,
                kids@.len() == i,
                forall|k: int|
                    0 <= k < i ==> const_view(#[trigger] kids@[k]) == node_view(
                        self.children@[k],
                    ),
                forall|k: int|
                    0 <= k < n ==> node_views(self.children@)[k] == node_view(
                        #[trigger] self.children@[k],
                    ),
                self@ == node_view(*self),
            decreases n - i,
        {
            proof {
                assert(node_view(self.children@[i as int]) == self@.children[i as int]);
                assert(decreases_to!(self@ => self@.children));
                assert(decreases_to!(self@.children => self@.children[i as int]));
                assert(decreases_to!(self@ => self@.children[i as int]));
            }
            let frozen_child = self.children[i].freeze();
            kids.push(frozen_child);
            i += 1;
        }
        let r = ConstNode {
            prefix: copy_bytes(&self.prefix),
            node_type: self.node_type,
            wild_child: self.wild_child,
            indices: copy_bytes(&self.indices),
            children: kids,
            endpoint: self.endpoint,
            priority: self.priority,
        };
        proof {
            lemma_const_views(r.children@);
            assert(const_views(r.children@) =~= node_views(self.children@));
        }
        r
    }
}


impl Node {
    /// Counts one more route through this node, holding at the counter's cap.
    fn tick(&mut self)
        ensures
            final(self)@ == (NodeView { priority: final(self)@.priority, ..old(self)@ }),
            final(self)@.priority == (if old(self)@.priority == u64::MAX {
                u64::MAX
            } else {
                (old(self)@.priority + 1) as u64
            }),
    {
        if self.priority < u64::MAX {
            self.priority = self.priority + 1;
        }
    }

    /// Splits this node: a new child takes the prefix tail from `lcp` on,
    /// together with everything the node held; the node keeps the head.
    fn split_at(&mut self, lcp: usize)
        requires
            wf(old(self)@),
            lcp < old(self).prefix@.len(),
            old(self).node_type != NodeType::Param,
            old(self).node_type != NodeType::CatchAll,
        ensures
            wf(final(self)@),
            final(self)@.node_type == old(self)@.node_type,
            final(self)@.prefix == old(self)@.prefix.take(lcp as int),
            !final(self)@.endpoint,
            !final(self)@.wild_child,
            final(self)@.children.len() == 1,
            final(self)@.indices =~= seq![old(self)@.prefix[lcp as int]],
            final(self)@.priority == old(self)@.priority,
            ordered(old(self)@) && old(self)@.priority >= 1 ==> ordered(final(self)@),
    {
        let mut moved: Vec<Node> = Vec::new();
        core::mem::swap(&mut moved, &mut self.children);
        let child_prefix = sub_to_vec(self.prefix.as_slice(), lcp, self.prefix.len());
        let child_indices = copy_bytes(&self.indices);
        let child = Node {
            prefix: child_prefix,
            node_type: NodeType::Static,
            wild_child: self.wild_child,
            indices: child_indices,
            children: moved,
            endpoint: self.endpoint,
            priority: self.priority,
        };
        proof {
            assert(child@.children == old(self)@.children);
            assert(wf_here(child@));
            assert(wf(child@));
        }
        self.prefix.truncate(lcp);
        let b = child.prefix[0];
        self.indices.clear();
        self.indices.push(b);
        self.children.clear();
        self.children.push(child);
        self.wild_child = false;
        self.endpoint = false;
        proof {
            lemma_node_views(self.children@);
            assert(self@.children.len() == 1);
            assert(self@.children[0] == child@);
            assert(self@.indices =~= seq![old(self)@.prefix[lcp as int]]);
            assert(wf_here(self@));
            assert(wf(self@));
            if ordered(old(self)@) && old(self)@.priority >= 1 {
                assert(ordered_here(child@));
                assert(ordered(child@));
                assert(ordered_here(self@));
                assert(ordered(self@));
            }
        }
    }

    /// Moves the child at `i` forward until siblings stand in descending
    /// priority order again, keeping `indices` aligned.
    #[verifier::loop_isolation(false)]
    fn bubble_up(&mut self, i: usize)
        requires
            wf(old(self)@),
            !old(self).wild_child,
            i < old(self).children@.len(),
        ensures
            wf(final(self)@),
            final(self)@.node_type == old(self)@.node_type,
            final(self)@.prefix == old(self)@.prefix,
            !final(self)@.wild_child,
            final(self)@.endpoint == old(self)@.endpoint,
            final(self)@.priority == old(self)@.priority,
            ordered_but(old(self)@, i as int) ==> ordered(final(self)@),
    {
        let ghost hyp = ordered_but(old(self)@, i as int);
        let mut j = i;
        while j > 0
            invariant
                j <= i,
                wf(self@),
                !self.wild_child,
                i < self.children@.len(),
                self.children@.len() == old(self).children@.len(),
                self@.node_type == old(self)@.node_type,
                self@.prefix == old(self)@.prefix,
                self@.endpoint == old(self)@.endpoint,
                self@.priority == old(self)@.priority,
                hyp ==> ordered_but(self@, j as int),
            decreases j,
        {
            proof {
                lemma_node_views(self.children@);
            }
            let pj = self.children[j].priority;
            let pprev = self.children[j - 1].priority;
            if pprev >= pj {
                proof {
                    if hyp {
                        assert(pprev == self@.children[j - 1].priority);
                        assert(pj == self@.children[j as int].priority);
                        assert forall|a: int, b: int|
                            0 <= a < b < self@.children.len() implies self@.children[a].priority
                            >= self@.children[b].priority by {
                            if b == j {
                                assert(self@.children[a].priority >= self@.children[
                                    j - 1
                                ].priority);
                            }
                        }
                        assert(ordered_here(self@));
                        assert(ordered(self@));
                    }
                }
                return ;
            }
            let ghost bc = self.children@;
            let ghost bi = self.indices@;
            let ghost bv = self@;
            let moved_child = self.children.remove(j);
            self.children.insert(j - 1, moved_child);
            let moved_idx = self.indices.remove(j);
            self.indices.insert(j - 1, moved_idx);
            proof {
                assert(self.children@ =~= bc.update(j - 1, bc[j as int]).update(
                    j as int,
                    bc[j - 1],
                ));
                assert(self.indices@ =~= bi.update(j - 1, bi[j as int]).update(
                    j as int,
                    bi[j - 1],
                ));
                lemma_node_views(self.children@);
                lemma_node_views(bc);
                assert forall|k: int| 0 <= k < self@.children.len() implies self@.children[k]
                    == (if k == j - 1 {
                    bv.children[j as int]
                } else if k == j {
                    bv.children[j - 1]
                } else {
                    bv.children[k]
                }) by {
                    assert(node_views(bc)[k] == node_view(bc[k]));
                }
                assert(wf_here(self@));
                assert forall|k: int| 0 <= k < self@.children.len() implies wf(
                    #[trigger] self@.children[k],
                ) by {}
                assert(wf(self@));
                if hyp {
                    assert(ordered_but(self@, j - 1)) by {
                        assert forall|a: int, b: int|
                            0 <= a < b < self@.children.len() && b != j - 1 implies self@.children[
                            a
                        ].priority >= self@.children[b].priority by {
                            if b == j {
                                if a < j - 1 {
                                    assert(bv.children[a].priority >= bv.children[j - 1].priority);
                                }
                            } else {
                                if a == j - 1 {
                                    assert(bv.children[j as int].priority >= bv.children[
                                        b
                                    ].priority);
                                } else if a == j {
                                    assert(bv.children[j - 1].priority >= bv.children[b].priority);
                                }
                            }
                        }
                        assert forall|b: int|
                            j - 1 < b < self@.children.len() implies self@.children[j - 1].priority
                            >= (#[trigger] self@.children[b]).priority by {
                            if b > j {
                                assert(bv.children[j as int].priority >= bv.children[b].priority);
                            }
                        }
                    }
                }
            }
            j -= 1;
        }
        proof {
            if hyp {
                assert(ordered_but(self@, 0));
                assert(ordered_here(self@));
                assert(ordered(self@));
            }
        }
    }

    /// Registers `pattern` into this tree.  The pattern's own structure is
    /// judged first, exactly as `spec_check` states; a structurally valid
    /// pattern is then woven into the tree and can fail only by contending
    /// with an already registered branch.  On a fresh root a valid pattern
    /// always lands, and the resulting tree matches exactly what the pattern
    /// describes, path for path (`tail_match`).  Every successful insertion
    /// advances the root's route counter by one and keeps the siblings of
    /// every node sorted by descending priority (`ordered`).
    pub fn insert(&mut self, pattern: &[u8]) -> (r: Result<(), InsertError>)
        requires
            wf(old(self)@),
            old(self)@.node_type == NodeType::Root,
        ensures
            wf(final(self)@),
            final(self)@.node_type == NodeType::Root,
            spec_check(pattern@) is Some ==> r == Err::<(), InsertError>(
                spec_check(pattern@).unwrap(),
            ) && final(self)@ == old(self)@,
            valid_pattern(pattern@) && fresh(old(self)@) ==> r is Ok && (forall|path: Seq<u8>|
                #![trigger spec_at(final(self)@, path)]
                spec_at(final(self)@, path) == tail_match(pattern@, 0, path)),
            r is Ok ==> valid_pattern(pattern@),
            r is Ok ==> final(self)@.priority == (if old(self)@.priority == u64::MAX {
                u64::MAX
            } else {
                (old(self)@.priority + 1) as u64
            }),
            r is Err ==> final(self)@.priority == old(self)@.priority,
            r is Err && valid_pattern(pattern@) ==> r == Err::<(), InsertError>(
                InsertError::Conflict,
            ),
    {
        match check_pattern(pattern) {
            Some(e) => Err(e),
            None => {
                if self.prefix.len() == 0 && self.children.len() == 0 && !self.endpoint
                    && !self.wild_child {
                    let n = pattern.len();
                    if n == 0 {
                        self.endpoint = true;
                        let ghost pre = self@;
                        self.tick();
                        proof {
                            assert(wf(self@));
                            assert(self@.children =~= Seq::<NodeView>::empty());
                            assert(ordered_here(self@));
                            assert(ordered(self@));
                            assert forall|path: Seq<u8>| spec_at(self@, path) == tail_match(
                                pattern@,
                                0,
                                path,
                            ) by {
                                lemma_spec_at_shape(self@, pre, path);
                                assert(path.take(0) =~= Seq::<u8>::empty());
                                assert(path.skip(0) =~= path);
                                assert(pre.prefix =~= Seq::<u8>::empty());
                                assert(pre.children =~= Seq::<NodeView>::empty());
                                assert(pre.indices =~= Seq::<u8>::empty());
                                if path.len() > 0 {
                                    assert(find_index(pre.indices, path[0]) is None);
                                }
                            }
                        }
                        Ok(())
                    } else if pattern[0] == COLON || pattern[0] == STAR {
                        let w = build_wild(pattern, 0);
                        let ghost wv = w@;
                        self.children.push(w);
                        self.wild_child = true;
                        proof {
                            lemma_node_views(self.children@);
                            assert(wf_here(self@));
                            assert(wf(self@));
                            assert(self@.children[0] == wv);
                            assert(ordered_here(self@));
                            assert(ordered(self@));
                        }
                        let ghost pre = self@;
                        self.tick();
                        proof {
                            assert(wf(self@));
                            assert(ordered_here(self@));
                            assert(ordered(self@));
                            assert forall|path: Seq<u8>| spec_at(self@, path) == tail_match(
                                pattern@,
                                0,
                                path,
                            ) by {
                                lemma_spec_at_shape(self@, pre, path);
                                assert(path.take(0) =~= Seq::<u8>::empty());
                                assert(path.skip(0) =~= path);
                                assert(pre.prefix =~= Seq::<u8>::empty());
                                assert(pre.children.len() == 1);
                                assert(pre.children[0] == wv);
                                assert(pre.indices.len() == 0);
                                assert(!pre.endpoint);
                                let pf = pattern@;
                                assert(spec_at(self@, path) == spec_at(pre, path));
                                if path.len() == 0 {
                                    if wv.node_type == NodeType::CatchAll {
                                        assert(spec_at(pre, path) == spec_at(wv, path));
                                        assert(spec_at(wv, path) == tail_match(pf, 0, path));
                                    } else {
                                        assert(pf[0] == COLON);
                                        assert(spec_at(pre, path) is None);
                                        assert(tail_match(pf, 0, path) is None);
                                    }
                                } else {
                                    assert(spec_at(pre, path) == spec_at(wv, path));
                                    assert(spec_at(wv, path) == tail_match(pf, 0, path));
                                }
                            }
                        }
                        Ok(())
                    } else {
                        let built = build_static(pattern, 0);
                        let ghost bv = built@;
                        let Node {
                            prefix: built_prefix,
                            node_type: _,
                            wild_child: built_wc,
                            indices: built_indices,
                            children: built_children,
                            endpoint: built_ep,
                            priority: _,
                        } = built;
                        self.prefix = built_prefix;
                        self.wild_child = built_wc;
                        self.indices = built_indices;
                        self.children = built_children;
                        self.endpoint = built_ep;
                        proof {
                            assert(self@.children == node_views(self.children@));
                            assert(wf_here(self@));
                            assert(wf(self@));
                            assert(self@.children == bv.children);
                            assert(ordered_here(self@));
                            assert(ordered(self@));
                        }
                        let ghost pre = self@;
                        self.tick();
                        proof {
                            assert(wf(self@));
                            assert(ordered_here(self@));
                            assert(ordered(self@));
                            assert forall|path: Seq<u8>| spec_at(self@, path) == tail_match(
                                pattern@,
                                0,
                                path,
                            ) by {
                                lemma_spec_at_shape(self@, pre, path);
                                lemma_spec_at_shape(pre, bv, path);
                                assert(spec_at(bv, path) == tail_match(pattern@, 0, path));
                            }
                        }
                        Ok(())
                    }
                } else {
                    self.insert_rec(pattern, 0)
                }
            },
        }
    }

    /// Weaves the pattern tail from `pos` on into this subtree.
    #[verifier::loop_isolation(false)]
    #[verifier::rlimit(100)]
    fn insert_rec(&mut self, pattern: &[u8], pos: usize) -> (r: Result<(), InsertError>)
        requires
            wf(old(self)@),
            pos <= pattern@.len(),
            valid_pattern(pattern@),
            old(self).node_type != NodeType::CatchAll,
        ensures
            wf(final(self)@),
            final(self)@.node_type == old(self)@.node_type,
            old(self).node_type == NodeType::Param ==> final(self)@.prefix == old(
                self,
            )@.prefix,
            old(self)@.prefix.len() > 0 && pos < pattern@.len() && pattern@[pos as int] == old(
                self,
            )@.prefix[0] ==> final(self)@.prefix.len() > 0 && final(self)@.prefix[0] == old(
                self,
            )@.prefix[0],
            r is Err ==> r == Err::<(), InsertError>(InsertError::Conflict),
            r is Ok ==> final(self)@.priority == (if old(self)@.priority == u64::MAX {
                u64::MAX
            } else {
                (old(self)@.priority + 1) as u64
            }),
            r is Err ==> final(self)@.priority == old(self)@.priority,
            ordered(old(self)@) && old(self)@.priority >= 1 ==> ordered(final(self)@),
        decreases
                pattern@.len() - pos,
                (if self.node_type == NodeType::Param || self.prefix@.len() == 0 {
                    1int
                } else {
                    0int
                }),
                1int,
    {
        let n = pattern.len();
        let is_param = matches!(self.node_type, NodeType::Param);
        let mut lcp: usize = 0;
        if !is_param {
            lcp = common_len(pattern, pos, &self.prefix);
            if lcp < self.prefix.len() {
                self.split_at(lcp);
                proof {
                    lemma_node_views(self.children@);
                }
            }
        }
        let ghost ord_pre = ordered(old(self)@) && old(self)@.priority >= 1;
        let q = pos + lcp;
        if q == n {
            self.endpoint = true;
            self.tick();
            proof {
                assert(wf(self@));
                if ord_pre {
                    assert(ordered_here(self@));
                    assert(ordered(self@));
                }
            }
            return Ok(());
        }
        let b = pattern[q];
        if b == COLON || b == STAR {
            proof {
                if ord_pre {
                    assert(ordered(self@));
                }
            }
            return self.insert_wild(pattern, q);
        }
        if self.wild_child {
            proof {
                if ord_pre {
                    assert(ordered(self@));
                }
            }
            return Err(InsertError::Conflict);
        }
        proof {
            lemma_node_views(self.children@);
        }
        let m = self.indices.len();
        let mut i: usize = 0;
        let mut found: usize = m;
        while i < m && found == m
            invariant
                0 <= i <= m,
                found == m || (found < m && self.indices@[found as int] == b),
                found == m ==> forall|k: int| 0 <= k < i ==> self.indices@[k] != b,
            decreases m - i + (if found == m { 1int } else { 0int }),
        {
            if self.indices[i] == b {
                found = i;
            } else {
                i += 1;
            }
        }
        if found < m {
            let fi = found;
            let ghost bc = self.children@;
            let ghost bv = self@;
            proof {
                assert(wf_here(bv));
                assert(bv.indices.len() == bv.children.len());
                lemma_node_views(bc);
                assert(fi < bc.len());
                assert(node_view(bc[fi as int]) == bv.children[fi as int]);
                assert(wf(bv.children[fi as int]));
                assert(bv.children[fi as int].prefix.len() > 0);
                assert(bv.children[fi as int].prefix[0] == bv.indices[fi as int]);
                if ord_pre {
                    assert(ordered(bv));
                    assert(ordered(bv.children[fi as int]));
                    assert(bv.children[fi as int].priority >= 1);
                }
                assert(decreases_to!(self@ => self@.children));
                assert(decreases_to!(self@.children => self@.children[fi as int]));
            }
            let res = self.children[fi].insert_rec(pattern, q);
            proof {
                lemma_node_views(self.children@);
                assert(self.children@ == bc.update(fi as int, self.children@[fi as int]));
                assert forall|k: int| 0 <= k < self@.children.len() implies self@.children[k] == (
                if k == fi {
                    node_view(self.children@[fi as int])
                } else {
                    bv.children[k]
                }) by {
                    assert(node_views(bc)[k] == node_view(bc[k]));
                }
                assert(self@.children[fi as int].prefix.len() > 0);
                assert(self@.children[fi as int].prefix[0] == bv.indices[fi as int]);
                assert(wf_here(self@));
                assert forall|k: int| 0 <= k < self@.children.len() implies wf(
                    #[trigger] self@.children[k],
                ) by {}
                assert(wf(self@));
                if ord_pre {
                    assert(ordered(bv));
                    assert(ordered_here(bv));
                    if res is Ok {
                        assert(self@.children[fi as int].priority >= bv.children[
                            fi as int
                        ].priority);
                        assert(ordered_but(self@, fi as int));
                    } else {
                        assert(self@.children[fi as int].priority == bv.children[
                            fi as int
                        ].priority);
                        assert(ordered_here(self@));
                        assert(ordered(self@));
                    }
                }
            }
            if res.is_ok() {
                self.tick();
                proof {
                    assert(wf(self@));
                    lemma_node_views(self.children@);
                    assert(wf_here(self@));
                    assert(fi < self.children@.len());
                    if ord_pre {
                        assert(ordered_but(self@, fi as int));
                    }
                }
                self.bubble_up(fi);
                return Ok(());
            }
            return res;
        }
        let c = build_static(pattern, q);
        let ghost cv = c@;
        let ghost bc = self.children@;
        let ghost bv = self@;
        self.children.push(c);
        self.indices.push(b);
        proof {
            lemma_node_views(self.children@);
            lemma_node_views(bc);
            assert(self.children@.len() == bc.len() + 1);
            assert forall|k: int| 0 <= k < self@.children.len() implies self@.children[k] == (
            if k < bc.len() {
                bv.children[k]
            } else {
                cv
            }) by {
                if k < bc.len() {
                    assert(node_views(bc)[k] == node_view(bc[k]));
                }
            }
            assert(self@.indices =~= bv.indices.push(b));
            assert(wf_here(self@));
            assert forall|k: int| 0 <= k < self@.children.len() implies wf(
                #[trigger] self@.children[k],
            ) by {}
            assert(wf(self@));
            if ord_pre {
                assert(ordered(bv));
                assert(ordered_here(bv));
                assert(ordered_here(self@));
                assert(ordered(self@));
            }
        }
        self.tick();
        proof {
            assert(wf(self@));
            if ord_pre {
                assert(ordered_here(self@));
                assert(ordered(self@));
            }
        }
        Ok(())
    }

    /// Handles a wildcard segment that starts at `q`: descends into a
    /// matching wildcard child, or creates one, or reports the clash.
    fn insert_wild(&mut self, pattern: &[u8], q: usize) -> (r: Result<(), InsertError>)
        requires
            wf(old(self)@),
            q < pattern@.len(),
            valid_pattern(pattern@),
            is_wild_byte(pattern@[q as int]),
            old(self).node_type != NodeType::CatchAll,
        ensures
            wf(final(self)@),
            final(self)@.node_type == old(self)@.node_type,
            final(self)@.prefix == old(self)@.prefix,
            r is Err ==> r == Err::<(), InsertError>(InsertError::Conflict),
            r is Ok ==> final(self)@.priority == (if old(self)@.priority == u64::MAX {
                u64::MAX
            } else {
                (old(self)@.priority + 1) as u64
            }),
            r is Err ==> final(self)@.priority == old(self)@.priority,
            ordered(old(self)@) ==> ordered(final(self)@),
        decreases pattern@.len() - q, 0int, 0int,
    {
        let ghost ord_pre = ordered(old(self)@);
        let n = pattern.len();
        let e = seg_end(pattern, q + 1);
        let is_star = pattern[q] == STAR;
        if self.wild_child {
            proof {
                assert(wf_here(self@));
                lemma_node_views(self.children@);
                assert(self@.children.len() == 1);
                assert(self.children@.len() == 1);
            }
            let kind_ok = if is_star {
                self.children[0].node_type == NodeType::CatchAll
            } else {
                self.children[0].node_type == NodeType::Param
            };
            let name_ok = vec_eq_span(&self.children[0].prefix, pattern, q + 1, e);
            if kind_ok && name_ok {
                if is_star {
                    let ghost bc = self.children@;
                    let ghost bv = self@;
                    let wchild = &mut self.children[0];
                    if wchild.priority < u64::MAX {
                        wchild.priority = wchild.priority + 1;
                    }
                    proof {
                        lemma_node_views(self.children@);
                        lemma_node_views(bc);
                        assert(self@.children.len() == 1);
                        assert(node_views(bc)[0] == node_view(bc[0]));
                        assert(self@.children[0] == (NodeView {
                            priority: self@.children[0].priority,
                            ..bv.children[0]
                        }));
                        assert(wf(bv.children[0]));
                        assert(wf_here(self@.children[0]));
                        assert(self@.children[0].children == bv.children[0].children);
                        assert(forall|k: int|
                            0 <= k < self@.children[0].children.len() ==> wf(
                                #[trigger] self@.children[0].children[k],
                            ));
                        assert(wf(self@.children[0]));
                        assert(wf_here(self@));
                        assert(wf(self@));
                        if ord_pre {
                            assert(ordered(bv));
                            assert(ordered(bv.children[0]));
                            assert(ordered_here(self@.children[0]));
                            assert(ordered(self@.children[0]));
                            assert(ordered_here(self@));
                            assert(ordered(self@));
                        }
                    }
                    self.tick();
                    proof {
                        assert(wf(self@));
                        if ord_pre {
                            assert(ordered_here(self@));
                            assert(ordered(self@));
                        }
                    }
                    Ok(())
                } else {
                    let ghost bc = self.children@;
                    let ghost bv = self@;
                    proof {
                        lemma_node_views(bc);
                        assert(node_view(bc[0]) == bv.children[0]);
                        assert(wf(bv.children[0]));
                        assert(bv.children[0].node_type == NodeType::Param);
                        assert(decreases_to!(self@ => self@.children));
                        assert(decreases_to!(self@.children => self@.children[0]));
                    }
                    let mut wchild = self.children.remove(0);
                    proof {
                        assert(wchild == bc[0]);
                        assert(wf(wchild@));
                        if ord_pre {
                            assert(ordered(bv));
                            assert(ordered(wchild@));
                            assert(wchild@.priority >= 1);
                        }
                    }
                    let res = wchild.insert_rec(pattern, e);
                    proof {
                        assert(wf(wchild@));
                        assert(wchild@.node_type == NodeType::Param);
                    }
                    self.children.insert(0, wchild);
                    proof {
                        assert(self.children@ =~= seq![wchild]);
                        lemma_node_views(self.children@);
                        assert(bc.len() == 1);
                        assert(self.children@.len() == 1);
                        assert(self@.children.len() == 1);
                        assert(self@.children[0] == node_view(self.children@[0]));
                        assert(wf(self@.children[0]));
                        assert(self@.children[0].node_type == NodeType::Param);
                        assert(wf_here(self@));
                        assert(wf(self@));
                        if ord_pre {
                            assert(ordered(self@.children[0]));
                            assert(self@.children[0].priority >= 1);
                            assert(ordered_here(self@));
                            assert(ordered(self@));
                        }
                    }
                    if res.is_ok() {
                        self.tick();
                        proof {
                            assert(wf(self@));
                            if ord_pre {
                                assert(ordered_here(self@));
                                assert(ordered(self@));
                            }
                        }
                        return Ok(());
                    }
                    res
                }
            } else {
                Err(InsertError::Conflict)
            }
        } else if self.children.len() > 0 {
            Err(InsertError::Conflict)
        } else {
            let w = build_wild(pattern, q);
            let ghost wv = w@;
            self.children.push(w);
            self.wild_child = true;
            proof {
                lemma_node_views(self.children@);
                assert(self@.children.len() == 1);
                assert(self@.children[0] == wv);
                assert(wf_here(self@));
                assert(wf(self@));
                assert(ordered_here(self@));
                assert(ordered(self@));
            }
            self.tick();
            proof {
                assert(wf(self@));
                assert(ordered_here(self@));
                assert(ordered(self@));
            }
            Ok(())
        }
    }
}

/// Builds the chain of nodes for the pattern tail from `from` on, whose first
/// byte is literal: a static node owning the bytes up to the next wildcard
/// marker, with the wildcard chain below it.
#[verifier::loop_isolation(false)]
fn build_static(pattern: &[u8], from: usize) -> (r: Node)
    requires
        from < pattern@.len(),
        valid_pattern(pattern@),
        !is_wild_byte(pattern@[from as int]),
    ensures
        wf(r@),
        r@.node_type == NodeType::Static,
        r@.prefix.len() > 0,
        r@.prefix[0] == pattern@[from as int],
        r@.priority == 1,
        ordered(r@),
        forall|path: Seq<u8>| #![trigger spec_at(r@, path)]
            spec_at(r@, path) == tail_match(pattern@, from as int, path),
    decreases pattern@.len() - from,
{
    let n = pattern.len();
    let mut k: usize = from;
    let mut stopped = false;
    while !stopped && k < n
        invariant
            from <= k <= n,
            stopped ==> k < n && is_wild_byte(pattern@[k as int]),
            forall|j: int| from <= j < k ==> !is_wild_byte(#[trigger] pattern@[j]),
        decreases n - k + (if stopped { 0int } else { 1int }),
    {
        if pattern[k] == COLON || pattern[k] == STAR {
            stopped = true;
        } else {
            k += 1;
        }
    }
    let prefix = sub_to_vec(pattern, from, k);
    if k == n {
        let r = Node {
            prefix,
            node_type: NodeType::Static,
            wild_child: false,
            indices: Vec::new(),
            children: Vec::new(),
            endpoint: true,
            priority: 1,
        };
        proof {
            assert(r@.children =~= Seq::<NodeView>::empty());
            assert(r@.indices =~= Seq::<u8>::empty());
            assert(wf_here(r@));
            assert(wf(r@));
            assert(ordered_here(r@));
            assert(ordered(r@));
            lemma_next_wild_found(pattern@, from as int, k as int);
            assert forall|path: Seq<u8>| spec_at(r@, path) == tail_match(
                pattern@,
                from as int,
                path,
            ) by {
                let pf = pattern@;
                let fr = from as int;
                let kk = k as int;
                assert(r@.prefix == pf.subrange(fr, kk));
                if path.len() >= kk - fr && path.take(kk - fr) == pf.subrange(fr, kk) {
                    let rest = path.skip(kk - fr);
                    if rest.len() > 0 {
                        assert(find_index(r@.indices, rest[0]) is None);
                        assert(tail_match(pf, kk, rest) is None);
                    }
                }
            }
        }
        r
    } else {
        let w = build_wild(pattern, k);
        let ghost wv = w@;
        let mut children: Vec<Node> = Vec::new();
        children.push(w);
        let r = Node {
            prefix,
            node_type: NodeType::Static,
            wild_child: true,
            indices: Vec::new(),
            children,
            endpoint: false,
            priority: 1,
        };
        proof {
            lemma_node_views(r.children@);
            assert(r@.children.len() == 1);
            assert(r@.children[0] == wv);
            assert(wf_here(r@));
            assert(wf(r@));
            assert(ordered_here(r@));
            assert(ordered(r@));
            lemma_next_wild_found(pattern@, from as int, k as int);
            assert forall|path: Seq<u8>| spec_at(r@, path) == tail_match(
                pattern@,
                from as int,
                path,
            ) by {
                let pf = pattern@;
                let fr = from as int;
                let kk = k as int;
                assert(r@.prefix == pf.subrange(fr, kk));
                if path.len() >= kk - fr && path.take(kk - fr) == pf.subrange(fr, kk) {
                    let rest = path.skip(kk - fr);
                    if rest.len() == 0 {
                        if wv.node_type == NodeType::CatchAll {
                            assert(spec_at(wv, rest) == tail_match(pf, kk, rest));
                        } else {
                            assert(pf[kk] == COLON);
                            assert(tail_match(pf, kk, rest) is None);
                        }
                    } else {
                        assert(spec_at(wv, rest) == tail_match(pf, kk, rest));
                    }
                }
            }
        }
        r
    }
}

/// Builds the node for the wildcard segment whose marker stands at `from`: a
/// parameter node with its static continuation below it, or a terminal
/// catch-all node.
fn build_wild(pattern: &[u8], from: usize) -> (r: Node)
    requires
        from < pattern@.len(),
        valid_pattern(pattern@),
        is_wild_byte(pattern@[from as int]),
    ensures
        wf(r@),
        r@.node_type == NodeType::Param || r@.node_type == NodeType::CatchAll,
        (r@.node_type == NodeType::Param <==> pattern@[from as int] == COLON),
        r@.priority == 1,
        ordered(r@),
        forall|path: Seq<u8>| #![trigger spec_at(r@, path)]
            path.len() > 0 ==> spec_at(r@, path) == tail_match(pattern@, from as int, path),
        r@.node_type == NodeType::CatchAll ==> forall|path: Seq<u8>|
            #![trigger spec_at(r@, path)]
            spec_at(r@, path) == tail_match(pattern@, from as int, path),
    decreases pattern@.len() - from,
{
    let n = pattern.len();
    let e = seg_end(pattern, from + 1);
    proof {
        assert(pattern@[from as int + 1] != SLASH);
        assert(e > from + 1);
    }
    let name = sub_to_vec(pattern, from + 1, e);
    if pattern[from] == STAR {
        let r = Node {
            prefix: name,
            node_type: NodeType::CatchAll,
            wild_child: false,
            indices: Vec::new(),
            children: Vec::new(),
            endpoint: true,
            priority: 1,
        };
        proof {
            assert(r@.children =~= Seq::<NodeView>::empty());
            assert(wf_here(r@));
            assert(wf(r@));
            assert(ordered_here(r@));
            assert(ordered(r@));
            lemma_wild_name_sub(pattern@, from as int, e as int);
            assert(r@.prefix == wild_name(pattern@, from as int));
            assert forall|path: Seq<u8>| spec_at(r@, path) == tail_match(
                pattern@,
                from as int,
                path,
            ) by {
                assert(pattern@[from as int] != COLON);
            }
        }
        r
    } else if e == n {
        let r = Node {
            prefix: name,
            node_type: NodeType::Param,
            wild_child: false,
            indices: Vec::new(),
            children: Vec::new(),
            endpoint: true,
            priority: 1,
        };
        proof {
            assert(r@.children =~= Seq::<NodeView>::empty());
            assert(r@.indices =~= Seq::<u8>::empty());
            assert(wf_here(r@));
            assert(wf(r@));
            assert(ordered_here(r@));
            assert(ordered(r@));
            lemma_wild_name_sub(pattern@, from as int, e as int);
            assert(r@.prefix == wild_name(pattern@, from as int));
            assert forall|path: Seq<u8>| path.len() > 0 implies spec_at(r@, path) == tail_match(
                pattern@,
                from as int,
                path,
            ) by {
                let pf = pattern@;
                let fr = from as int;
                lemma_find_index_ok(path, SLASH);
                lemma_seg_len_bounds(path);
                let e0 = seg_len(path);
                let rest0 = path.skip(e0);
                assert(fr + 1 + wild_name(pf, fr).len() == n);
                if rest0.len() == 0 {
                    assert(seq![(r@.prefix, path.take(e0))] + Seq::<SpecPair>::empty() =~= seq![
                        (r@.prefix, path.take(e0)),
                    ]);
                } else {
                    assert(rest0[0] == SLASH);
                    assert(find_index(r@.indices, rest0[0]) is None);
                    assert(tail_match(pf, n as int, rest0) is None);
                }
            }
        }
        r
    } else {
        proof {
            assert(pattern@[e as int] == SLASH);
            assert(!is_wild_byte(pattern@[e as int]));
        }
        let c = build_static(pattern, e);
        let ghost cv = c@;
        let b = pattern[e];
        let mut children: Vec<Node> = Vec::new();
        children.push(c);
        let mut indices: Vec<u8> = Vec::new();
        indices.push(b);
        let r = Node {
            prefix: name,
            node_type: NodeType::Param,
            wild_child: false,
            indices,
            children,
            endpoint: false,
            priority: 1,
        };
        proof {
            lemma_node_views(r.children@);
            assert(r@.children.len() == 1);
            assert(r@.indices.len() == 1);
            assert(r@.children[0] == cv);
            assert(r@.indices =~= seq![SLASH]);
            assert(wf_here(r@));
            assert(wf(r@));
            assert(ordered_here(r@));
            assert(ordered(r@));
            lemma_wild_name_sub(pattern@, from as int, e as int);
            assert(r@.prefix == wild_name(pattern@, from as int));
            assert forall|path: Seq<u8>| path.len() > 0 implies spec_at(r@, path) == tail_match(
                pattern@,
                from as int,
                path,
            ) by {
                let pf = pattern@;
                let fr = from as int;
                let ee = e as int;
                lemma_find_index_ok(path, SLASH);
                lemma_seg_len_bounds(path);
                let e0 = seg_len(path);
                let rest0 = path.skip(e0);
                assert(fr + 1 + wild_name(pf, fr).len() == ee);
                if rest0.len() == 0 {
                    lemma_next_wild_bounds(pf, ee);
                    assert(next_wild(pf, ee) > ee);
                    assert(tail_match(pf, ee, rest0) is None);
                } else {
                    assert(rest0[0] == SLASH);
                    assert(find_index(r@.indices, rest0[0]) == Some(0int));
                    assert(spec_at(cv, rest0) == tail_match(pf, ee, rest0));
                    if tail_match(pf, ee, rest0) is Some {
                        let ps = tail_match(pf, ee, rest0).unwrap();
                        assert(seq![(r@.prefix, path.take(e0))] + ps =~= seq![
                            (wild_name(pf, fr), path.take(e0)),
                        ] + ps);
                    }
                }
            }
        }
        r
    }
}

impl Default for Node {
    /// A fresh root, as `Node::new` yields it.
    fn default() -> (r: Node)
        ensures
            wf(r@),
            ordered(r@),
            fresh(r@),
            r@.node_type == NodeType::Root,
            r@.priority == 0,
    {
        Node::new()
    }
}

} // verus!
