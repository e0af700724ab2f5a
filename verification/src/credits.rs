//! The credit-weight map: each subject code's integer credit weight,
//! assumed term-invariant.

use vstd::prelude::*;

verus! {

/// Mapping from subject code to its credit weight. Entries are kept in a
/// fixed order; each code appears at most once.
#[derive(Debug)]
pub struct CreditMap {
    pub table: Vec<(String, u8)>,
}

impl View for CreditMap {
    type V = Seq<(Seq<char>, u8)>;

    open spec fn view(&self) -> Seq<(Seq<char>, u8)> {
        self.table@.map_values(|e: (String, u8)| (e.0@, e.1))
    }
}

/// The weight the first entry of `m` carrying code `k` gives, if any.
pub open spec fn spec_credit(m: Seq<(Seq<char>, u8)>, k: Seq<char>) -> Option<u8>
    decreases m.len(),
{
    if m.len() == 0 {
        None
    } else if m[0].0 == k {
        Some(m[0].1)
    } else {
        spec_credit(m.drop_first(), k)
    }
}

impl CreditMap {
    /// Each subject code appears in at most one entry.
    pub open spec fn wf(self) -> bool {
        forall|i: int, j: int| 0 <= i < j < self@.len() ==> self@[i].0 != self@[j].0
    }

    /// Whether the map carries a weight for code `k`.
    pub open spec fn covers(self, k: Seq<char>) -> bool {
        spec_credit(self@, k) is Some
    }

    /// The credit weight recorded for `code`, if any.
    pub fn credit_of(&self, code: &String) -> (r: Option<u8>)
        ensures
            r == spec_credit(self@, code@),
    {
        let ghost m = self@;
        proof {
            assert(m.skip(0) =~= m);
        }
        let mut i: usize = 0;
        while i < self.table.len()
            invariant
                0 <= i <= m.len(),
                m == self@,
                spec_credit(m, code@) == spec_credit(m.skip(i as int), code@),
            decreases m.len() - i,
        {
            proof {
                assert(m[i as int] == (self.table@[i as int].0@, self.table@[i as int].1));
                assert(m.skip(i as int)[0] == m[i as int]);
                assert(m.skip(i as int).drop_first() =~= m.skip(i + 1));
            }
            if self.table[i].0.eq(code) {
                return Some(self.table[i].1);
            }
            i = i + 1;
        }
        proof {
            assert(m.skip(m.len() as int) =~= Seq::<(Seq<char>, u8)>::empty());
        }
        None
    }
}

} // verus!
