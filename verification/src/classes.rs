//! Sections ("classes"): one offered weekly meeting pattern of a subject,
//! as a list of slots. Two sections count as equal when they hold the same
//! slots, in any order, i.e. when their slot multisets agree.

use vstd::prelude::*;
use crate::slots::Slot;

verus! {

broadcast use vstd::seq_lib::group_to_multiset_ensures, vstd::multiset::group_multiset_axioms;

/// One offered meeting pattern for a subject: an ordered list of slots.
#[derive(Debug)]
pub struct Class(pub Vec<Slot>);

impl View for Class {
    type V = Seq<Slot>;

    open spec fn view(&self) -> Seq<Slot> {
        self.0@
    }
}

impl Clone for Class {
    fn clone(&self) -> (r: Self)
        ensures
            r@ == self@,
    {
        let r = Class(self.0.clone());
        proof {
            assert(r@ =~= self@);
        }
        r
    }
}

/// Order-independent section equality: the two slot lists hold the same
/// slots with the same repetitions.
pub open spec fn class_equiv(a: Seq<Slot>, b: Seq<Slot>) -> bool {
    a.to_multiset() == b.to_multiset()
}

/// How many times `x` occurs in `v`.
fn count_slot(v: &Vec<Slot>, x: Slot) -> (r: usize)
    ensures
        r == v@.to_multiset().count(x),
{
    let mut c: usize = 0;
    let mut i: usize = 0;
    while i < v.len()
        invariant
            0 <= i <= v@.len(),
            c <= i,
            c == v@.take(i as int).to_multiset().count(x),
        decreases v@.len() - i,
    {
        proof {
            assert(v@.take(i + 1) =~= v@.take(i as int).push(v@[i as int]));
            if v@[i as int] == x {
                vstd::multiset::lemma_insert_increases_count_by_1(
                    v@.take(i as int).to_multiset(),
                    v@[i as int],
                );
            } else {
                vstd::multiset::lemma_insert_other_elements_unchanged(
                    v@.take(i as int).to_multiset(),
                    v@[i as int],
                    x,
                );
            }
        }
        if v[i] == x {
            c = c + 1;
        }
        i = i + 1;
    }
    proof {
        assert(v@.take(v@.len() as int) =~= v@);
    }
    c
}

impl PartialEq for Class {
    /// Checks order-independent equality by comparing, for every slot that
    /// occurs in either section, its number of occurrences in both.
    fn eq(&self, other: &Self) -> (r: bool) {
        if self.0.len() != other.0.len() {
            proof {
                assert(self@.to_multiset().len() == self@.len());
                assert(other@.to_multiset().len() == other@.len());
            }
            return false;
        }
        let n = self.0.len();
        let mut i: usize = 0;
        let mut same: bool = true;
        while i < n
            invariant
                0 <= i <= n,
                n == self@.len() == other@.len(),
                same ==> forall|k: int|
                    0 <= k < i ==> self@.to_multiset().count(self@[k]) == other@.to_multiset().count(
                        self@[k],
                    ) && self@.to_multiset().count(other@[k]) == other@.to_multiset().count(
                        other@[k],
                    ),
                !same ==> self@.to_multiset() != other@.to_multiset(),
            decreases n - i,
        {
            let ca = count_slot(&self.0, self.0[i]);
            let cb = count_slot(&other.0, self.0[i]);
            let cc = count_slot(&self.0, other.0[i]);
            let cd = count_slot(&other.0, other.0[i]);
            if ca != cb || cc != cd {
                same = false;
            }
            i = i + 1;
        }
        proof {
            if same {
                assert forall|x: Slot|
                    self@.to_multiset().count(x) == other@.to_multiset().count(x) by {
                    if self@.to_multiset().count(x) > 0 {
                        assert(self@.contains(x));
                        let k = choose|k: int| 0 <= k < self@.len() && self@[k] == x;
                        assert(self@.to_multiset().count(self@[k]) == other@.to_multiset().count(
                            self@[k],
                        ));
                    } else if other@.to_multiset().count(x) > 0 {
                        assert(other@.contains(x));
                        let k = choose|k: int| 0 <= k < other@.len() && other@[k] == x;
                        assert(self@.to_multiset().count(other@[k]) == other@.to_multiset().count(
                            other@[k],
                        ));
                    }
                }
                assert(self@.to_multiset() =~= other@.to_multiset());
            }
        }
        same
    }
}

impl vstd::std_specs::cmp::PartialEqSpecImpl for Class {
    open spec fn obeys_eq_spec() -> bool {
        true
    }

    open spec fn eq_spec(&self, other: &Class) -> bool {
        class_equiv(self@, other@)
    }
}

} // verus!
