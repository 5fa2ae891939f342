use vstd::prelude::*;
use crate::bytes::{bytes_eq, copy_bytes};

verus! {

/// A single extracted binding: parameter name and the matched path bytes.
pub type SpecPair = (Seq<u8>, Seq<u8>);

/// Ordered collection of (name, value) byte-string pairs extracted by a match.
#[derive(Debug, PartialEq, Eq)]
pub struct Params {
    pairs: Vec<(Vec<u8>, Vec<u8>)>,
}

impl View for Params {
    type V = Seq<SpecPair>;

    closed spec fn view(&self) -> Seq<SpecPair> {
        Seq::new(self.pairs@.len(), |i: int| (self.pairs@[i].0@, self.pairs@[i].1@))
    }
}

/// Whether some pair in `s` carries the name `name`.
pub open spec fn has_name(s: Seq<SpecPair>, name: Seq<u8>) -> bool {
    exists|i: int| 0 <= i < s.len() && s[i].0 == name
}

/// The value of the last pair in `s` named `name`.
pub open spec fn last_value(s: Seq<SpecPair>, name: Seq<u8>) -> Seq<u8>
    decreases s.len(),
{
    if s.len() == 0 {
        Seq::empty()
    } else if s.last().0 == name {
        s.last().1
    } else {
        last_value(s.drop_last(), name)
    }
}

/// Holds of a pair whose name is not bound in `a`.
pub open spec fn absent_from(a: Seq<SpecPair>) -> spec_fn(SpecPair) -> bool {
    |q: SpecPair| !has_name(a, q.0)
}

/// The result of merging `b` into `a`: pairs of `a` keep their position but a
/// name also bound in `b` takes its latest value from `b`; pairs of `b` whose
/// names are absent from `a` follow in order.
pub open spec fn spec_merged(a: Seq<SpecPair>, b: Seq<SpecPair>) -> Seq<SpecPair> {
    Seq::new(a.len(), |i: int| if has_name(b, a[i].0) { (a[i].0, last_value(b, a[i].0)) } else { a[i] })
        + b.filter(absent_from(a))
}

impl Params {
    /// An empty collection.
    pub fn new() -> (r: Params)
        ensures
            r@ == Seq::<SpecPair>::empty(),
    {
        let r = Params { pairs: Vec::new() };
        proof {
            assert(r@ =~= Seq::<SpecPair>::empty());
        }
        r
    }

    /// Appends one binding.
    pub fn push(&mut self, name: Vec<u8>, value: Vec<u8>)
        ensures
            final(self)@ == old(self)@.push((name@, value@)),
    {
        let ghost before = self@;
        self.pairs.push((name, value));
        proof {
            assert(self@ =~= before.push((name@, value@)));
        }
    }

    /// Number of bindings.
    pub fn len(&self) -> (r: usize)
        ensures
            r == self@.len(),
    {
        self.pairs.len()
    }

    /// The name of the binding at position `i`.
    pub fn name_at(&self, i: usize) -> (r: &Vec<u8>)
        requires
            i < self@.len(),
        ensures
            r@ == self@[i as int].0,
    {
        &self.pairs[i].0
    }

    /// The value of the binding at position `i`.
    pub fn value_at(&self, i: usize) -> (r: &Vec<u8>)
        requires
            i < self@.len(),
        ensures
            r@ == self@[i as int].1,
    {
        &self.pairs[i].1
    }

    /// The value of the latest binding named `name`, if any.
    pub fn get(&self, name: &Vec<u8>) -> (r: Option<&Vec<u8>>)
        ensures
            match r {
                Some(v) => has_name(self@, name@) && v@ == last_value(self@, name@),
                None => !has_name(self@, name@),
            },
    {
        let n = self.pairs.len();
        let mut i: usize = n;
        while i > 0
            invariant
                n == self@.len(),
                0 <= i <= n,
                forall|j: int| i <= j < n ==> (#[trigger] self@[j]).0 != name@,
            decreases i,
        {
            i -= 1;
            if bytes_eq(&self.pairs[i].0, name) {
                proof {
                    lemma_last_value_found(self@, name@, i as int);
                }
                return Some(&self.pairs[i].1);
            }
        }
        None
    }

    /// Merges `other` into `self`: a name bound in both keeps its position in
    /// `self` but takes its latest value from `other`; names only in `other`
    /// are appended in order.
    #[verifier::loop_isolation(false)]
    pub fn merge(&mut self, other: Params)
        ensures
            final(self)@ == spec_merged(old(self)@, other@),
    {
        let ghost a = self@;
        let ghost b = other@;
        let n = self.pairs.len();
        let mut i: usize = 0;
        while i < n
            invariant
                n == a.len() == self@.len(),
                b == other@,
                0 <= i <= n,
                forall|k: int| 0 <= k < i ==> #[trigger] self@[k] == (if has_name(b, a[k].0) {
                    (a[k].0, last_value(b, a[k].0))
                } else {
                    a[k]
                }),
                forall|k: int| i <= k < n ==> #[trigger] self@[k] == a[k],
            decreases n - i,
        {
            let ghost before = self@;
            match other.find_last(&self.pairs[i].0) {
                Some(j) => {
                    let name = copy_bytes(&self.pairs[i].0);
                    let value = copy_bytes(&other.pairs[j].1);
                    proof {
                        assert(self@[i as int] == a[i as int]);
                        assert(name@ == a[i as int].0);
                        assert(value@ == last_value(b, a[i as int].0));
                    }
                    self.pairs[i] = (name, value);
                    proof {
                        assert(self@ =~= before.update(i as int, (a[i as int].0, last_value(b, a[i as int].0))));
                    }
                }
                None => {
                }
            }
            i += 1;
        }
        let ghost mid = self@;
        proof {
            assert(mid =~= Seq::new(a.len(), |k: int| if has_name(b, a[k].0) {
                (a[k].0, last_value(b, a[k].0))
            } else {
                a[k]
            }));
            assert(b.take(0).filter(absent_from(a)) =~= Seq::<SpecPair>::empty()) by {
                reveal_with_fuel(Seq::filter, 2);
                assert(b.take(0) =~= Seq::<SpecPair>::empty());
            }
        }
        let m = other.pairs.len();
        let mut j: usize = 0;
        while j < m
            invariant
                m == b.len() == other@.len(),
                self@ == mid + b.take(j as int).filter(absent_from(a)),
                0 <= j <= m,
            decreases m - j,
        {
            let ghost before = self@;
            let ghost pred = absent_from(a);
            let mut absent = true;
            let mut k: usize = 0;
            while k < n
                invariant
                    n == a.len(),
                    b == other@,
                    0 <= k <= n,
                    j < m,
                    absent ==> forall|l: int| 0 <= l < k ==> (#[trigger] a[l]).0 != b[j as int].0,
                    !absent ==> has_name(a, b[j as int].0),
                decreases n - k,
            {
                proof {
                    assert(self@[k as int] == mid[k as int]);
                    assert(mid[k as int].0 == a[k as int].0);
                }
                if bytes_eq(&self.pairs[k].0, &other.pairs[j].0) {
                    proof {
                        assert(a[k as int].0 == b[j as int].0);
                        assert(has_name(a, b[j as int].0));
                    }
                    absent = false;
                }
                k += 1;
            }
            if absent {
                let name = copy_bytes(&other.pairs[j].0);
                let value = copy_bytes(&other.pairs[j].1);
                self.pairs.push((name, value));
                proof {
                    assert(self@ =~= before.push(b[j as int]));
                }
            }
            proof {
                assert(!absent ==> !pred(b[j as int]));
                assert(absent ==> pred(b[j as int]));
                lemma_filter_take_step(b, pred, j as int);
                assert(self@ =~= mid + b.take(j as int + 1).filter(pred));
            }
            j += 1;
        }
        proof {
            assert(b.take(m as int) =~= b);
            assert(self@ =~= spec_merged(a, b));
        }
    }

    /// Index of the last pair named `name`, if any.
    fn find_last(&self, name: &Vec<u8>) -> (r: Option<usize>)
        ensures
            match r {
                Some(j) => j < self@.len() && self@[j as int].0 == name@
                    && self@[j as int].1 == last_value(self@, name@),
                None => !has_name(self@, name@),
            },
    {
        let n = self.pairs.len();
        let mut i: usize = n;
        while i > 0
            invariant
                n == self@.len(),
                0 <= i <= n,
                forall|j: int| i <= j < n ==> (#[trigger] self@[j]).0 != name@,
            decreases i,
        {
            i -= 1;
            if bytes_eq(&self.pairs[i].0, name) {
                proof {
                    lemma_last_value_found(self@, name@, i as int);
                }
                return Some(i);
            }
        }
        None
    }
}

/// If position `i` holds the last pair named `name`, `last_value` returns its value.
proof fn lemma_last_value_found(s: Seq<SpecPair>, name: Seq<u8>, i: int)
    requires
        0 <= i < s.len(),
        s[i].0 == name,
        forall|j: int| i < j < s.len() ==> (#[trigger] s[j]).0 != name,
    ensures
        last_value(s, name) == s[i].1,
    decreases s.len(),
{
    if i == s.len() - 1 {
    } else {
        lemma_last_value_found(s.drop_last(), name, i);
    }
}

/// One step of filtering a growing prefix.
proof fn lemma_filter_take_step(s: Seq<SpecPair>, pred: spec_fn(SpecPair) -> bool, j: int)
    requires
        0 <= j < s.len(),
    ensures
        s.take(j + 1).filter(pred) == s.take(j).filter(pred) + (if pred(s[j]) {
            seq![s[j]]
        } else {
            Seq::<SpecPair>::empty()
        }),
{
    reveal_with_fuel(Seq::filter, 2);
    assert(s.take(j + 1).drop_last() =~= s.take(j));
    assert(s.take(j + 1).last() == s[j]);
    if pred(s[j]) {
        assert(s.take(j + 1).filter(pred) =~= s.take(j).filter(pred) + seq![s[j]]);
    } else {
        assert(s.take(j + 1).filter(pred) =~= s.take(j).filter(pred) + Seq::<SpecPair>::empty());
    }
}

} // verus!
