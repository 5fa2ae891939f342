use vstd::prelude::*;
use crate::model::{NodeType, NodeView, wf, spec_at, spec_descend, seg_len,
    lemma_find_index_found, lemma_find_index_none};
use crate::params::{Params, SpecPair};
use crate::bytes::{copy_bytes, sub_to_vec, seg_end};

verus! {

broadcast use vstd::std_specs::vec::group_vec_axioms, vstd::seq::group_seq_axioms;

/// Failure of a match: no registered pattern covers the given path.
#[derive(Clone, Copy, PartialEq, Eq, Structural, Debug)]
pub struct MatchError;

/// Immutable tree node, frozen at registration time; only read while matching.
pub struct ConstNode {
    pub prefix: Vec<u8>,
    pub node_type: NodeType,
    pub wild_child: bool,
    pub indices: Vec<u8>,
    pub children: Vec<ConstNode>,
    pub endpoint: bool,
    pub priority: u64,
}

/// The mathematical shape of a frozen node.
pub open spec fn const_view(n: ConstNode) -> NodeView
    decreases n,
{
    NodeView {
        prefix: n.prefix@,
        node_type: n.node_type,
        wild_child: n.wild_child,
        indices: n.indices@,
        children: const_views(n.children@),
        endpoint: n.endpoint,
        priority: n.priority,
    }
}

/// The shapes of a sequence of frozen nodes.
pub open spec fn const_views(s: Seq<ConstNode>) -> Seq<NodeView>
    decreases s,
{
    if s.len() == 0 {
        Seq::empty()
    } else {
        seq![const_view(s[0])] + const_views(s.drop_first())
    }
}

/// `const_views` maps `const_view` over the sequence, position by position.
pub proof fn lemma_const_views(s: Seq<ConstNode>)
    ensures
        const_views(s).len() == s.len(),
        forall|i: int| 0 <= i < s.len() ==> const_views(s)[i] == const_view(s[i]),
    decreases s,
{
    if s.len() > 0 {
        lemma_const_views(s.drop_first());
        assert(forall|i: int| 1 <= i < s.len() ==> const_views(s)[i] == const_views(
            s.drop_first(),
        )[i - 1]);
    }
}

impl View for ConstNode {
    type V = NodeView;

    open spec fn view(&self) -> NodeView {
        const_view(*self)
    }
}

/// Whether `path` continues with exactly the bytes of `pre` at `pos`.
fn starts_with_at(path: &[u8], pos: usize, pre: &Vec<u8>) -> (r: bool)
    requires
        pos <= path@.len(),
    ensures
        r == (path@.len() - pos >= pre@.len() && path@.skip(pos as int).take(pre@.len() as int)
            == pre@),
{
    let n = path.len();
    let m = pre.len();
    if n - pos < m {
        return false;
    }
    let mut i: usize = 0;
    while i < m
        invariant
            pos + m <= n,
            n == path@.len(),
            m == pre@.len(),
            0 <= i <= m,
            forall|j: int| 0 <= j < i ==> path@[pos + j] == pre@[j],
        decreases m - i,
    {
        if path[pos + i] != pre[i] {
            proof {
                assert(path@.skip(pos as int).take(pre@.len() as int)[i as int] != pre@[i as int]);
            }
            return false;
        }
        i += 1;
    }
    proof {
        assert(path@.skip(pos as int).take(pre@.len() as int) =~= pre@);
    }
    true
}

impl ConstNode {
    /// Matches `path` against the frozen tree and extracts the bindings.
    pub fn at(&self, path: &[u8]) -> (r: Result<Params, MatchError>)
        requires
            wf(self@),
        ensures
            match r {
                Ok(p) => spec_at(self@, path@) == Some(p@),
                Err(_) => spec_at(self@, path@) is None,
            },
    {
        let mut params = Params::new();
        proof {
            assert(path@.skip(0) =~= path@);
        }
        if self.match_rec(path, 0, &mut params) {
            proof {
                assert(Seq::<SpecPair>::empty() + spec_at(self@, path@).unwrap() =~= spec_at(
                    self@,
                    path@,
                ).unwrap());
            }
            Ok(params)
        } else {
            Err(MatchError)
        }
    }

    /// Matches the part of `path` from `pos` on against this subtree,
    /// appending extracted bindings to `params`.
    fn match_rec(&self, path: &[u8], pos: usize, params: &mut Params) -> (r: bool)
        requires
            wf(self@),
            pos <= path@.len(),
        ensures
            r == (spec_at(self@, path@.skip(pos as int)) is Some),
            r ==> final(params)@ == old(params)@ + spec_at(self@, path@.skip(pos as int)).unwrap(),
        decreases self@, 1int,
    {
        let ghost sp = path@.skip(pos as int);
        match self.node_type {
            NodeType::Param => {
                let e = seg_end(path, pos);
                proof {
                    assert(sp.take(e - pos) =~= path@.subrange(pos as int, e as int));
                    assert(sp.skip(e - pos) =~= path@.skip(e as int));
                }
                let name = copy_bytes(&self.prefix);
                let value = sub_to_vec(path, pos, e);
                let ghost pair = (self@.prefix, sp.take(seg_len(sp)));
                params.push(name, value);
                let ok = self.descend_rec(path, e, params);
                proof {
                    if ok {
                        let ps = spec_descend(
                            self@.children,
                            self@.indices,
                            self@.wild_child,
                            self@.endpoint,
                            path@.skip(e as int),
                        ).unwrap();
                        assert(params@ =~= old(params)@ + (seq![pair] + ps));
                    }
                }
                ok
            },
            NodeType::CatchAll => {
                let name = copy_bytes(&self.prefix);
                let value = sub_to_vec(path, pos, path.len());
                proof {
                    assert(path@.subrange(pos as int, path@.len() as int) =~= sp);
                }
                params.push(name, value);
                proof {
                    assert(params@ =~= old(params)@ + seq![(self@.prefix, sp)]);
                }
                true
            },
            _ => {
                if starts_with_at(path, pos, &self.prefix) {
                    let total = path.len();
                    proof {
                        assert(pos + self.prefix@.len() <= total);
                        assert(sp.skip(self@.prefix.len() as int) =~= path@.skip(
                            pos + self.prefix@.len(),
                        ));
                    }
                    self.descend_rec(path, pos + self.prefix.len(), params)
                } else {
                    false
                }
            },
        }
    }

    /// Dispatches the part of `path` from `pos` on among this node's children.
    fn descend_rec(&self, path: &[u8], pos: usize, params: &mut Params) -> (r: bool)
        requires
            wf(self@),
            pos <= path@.len(),
        ensures
            r == (spec_descend(
                self@.children,
                self@.indices,
                self@.wild_child,
                self@.endpoint,
                path@.skip(pos as int),
            ) is Some),
            r ==> final(params)@ == old(params)@ + spec_descend(
                self@.children,
                self@.indices,
                self@.wild_child,
                self@.endpoint,
                path@.skip(pos as int),
            ).unwrap(),
        decreases self@, 0int,
    {
        proof {
            lemma_const_views(self.children@);
        }
        let ghost rest = path@.skip(pos as int);
        if pos == path.len() {
            if self.endpoint {
                proof {
                    assert(params@ =~= old(params)@ + Seq::<SpecPair>::empty());
                }
                true
            } else if self.wild_child {
                let child = &self.children[0];
                if matches!(child.node_type, NodeType::CatchAll) {
                    child.match_rec(path, pos, params)
                } else {
                    false
                }
            } else {
                false
            }
        } else {
            if self.wild_child {
                self.children[0].match_rec(path, pos, params)
            } else {
                let b = path[pos];
                let n = self.indices.len();
                let mut i: usize = 0;
                while i < n
                    invariant
                        n == self.indices@.len() == self@.indices.len(),
                        n == self@.children.len(),
                        n == self.children@.len(),
                        0 <= i <= n,
                        forall|j: int| 0 <= j < i ==> self@.indices[j] != b,
                        wf(self@),
                        pos < path@.len(),
                        b == path@[pos as int],
                        rest == path@.skip(pos as int),
                        self@ == const_view(*self),
                        forall|k: int|
                            0 <= k < self.children@.len() ==> self@.children[k] == const_view(
                                self.children@[k],
                            ),
                        params@ == old(params)@,
                    decreases n - i,
                {
                    if self.indices[i] == b {
                        proof {
                            lemma_find_index_found(self@.indices, b, i as int);
                            assert(rest[0] == b);
                            assert(const_view(self.children@[i as int]) == self@.children[
                                i as int
                            ]);
                        }
                        return self.children[i].match_rec(path, pos, params);
                    }
                    i += 1;
                }
                proof {
                    lemma_find_index_none(self@.indices, b);
                }
                false
            }
        }
    }
}

} // verus!
