//! The per-term offer table: for every subject code, the list of alternative
//! sections offered that term, plus section deduplication.

use vstd::prelude::*;
use vstd::pervasive::VecAdditionalExecFns;
use crate::classes::{class_equiv, Class};
use crate::slots::Slot;

verus! {

/// A course, identified by a globally unique code, offered by an institute.
#[derive(Debug)]
pub struct Subject {
    pub code: String,
    pub institute: String,
}

impl Clone for Subject {
    fn clone(&self) -> (r: Self)
        ensures
            r.code@ == self.code@,
            r.institute@ == self.institute@,
    {
        Subject { code: self.code.clone(), institute: self.institute.clone() }
    }
}

/// The slot lists of a list of sections.
pub open spec fn class_views(s: Seq<Class>) -> Seq<Seq<Slot>> {
    s.map_values(|c: Class| c@)
}

/// The character sequences of a list of strings.
pub open spec fn str_views(s: Seq<String>) -> Seq<Seq<char>> {
    s.map_values(|x: String| x@)
}

/// Whether `code` occurs in `v`.
pub fn contains_string(v: &Vec<String>, code: &String) -> (r: bool)
    ensures
        r == str_views(v@).contains(code@),
{
    let mut i: usize = 0;
    while i < v.len()
        invariant
            0 <= i <= v@.len(),
            forall|t: int| 0 <= t < i ==> str_views(v@)[t] != code@,
        decreases v@.len() - i,
    {
        proof {
            assert(str_views(v@)[i as int] == v@[i as int]@);
        }
        if v[i].eq(code) {
            proof {
                assert(str_views(v@).contains(code@));
            }
            return true;
        }
        i = i + 1;
    }
    false
}

/// Mapping from subject code to the sections offered in one term. An absent
/// or empty entry means the subject is not offered. Entries are kept in a
/// fixed order so that every enumeration of the table is deterministic.
#[derive(Debug)]
pub struct Timesheet {
    pub table: Vec<(String, Vec<Class>)>,
}

impl View for Timesheet {
    type V = Seq<(Seq<char>, Seq<Seq<Slot>>)>;

    open spec fn view(&self) -> Seq<(Seq<char>, Seq<Seq<Slot>>)> {
        self.table@.map_values(|e: (String, Vec<Class>)| (e.0@, class_views(e.1@)))
    }
}

impl Timesheet {
    /// Each subject code appears in at most one entry.
    pub open spec fn wf(self) -> bool {
        forall|i: int, j: int| 0 <= i < j < self@.len() ==> self@[i].0 != self@[j].0
    }

    /// Whether some entry carries the code `k`.
    pub open spec fn contains_code(self, k: Seq<char>) -> bool {
        exists|i: int| 0 <= i < self@.len() && self@[i].0 == k
    }

    /// For every subject, drops each section that repeats an earlier section
    /// of the same list (order-independent comparison), keeping first
    /// occurrences in place.
    pub fn remove_duplicates(&mut self)
        ensures
            final(self)@.len() == old(self)@.len(),
            forall|j: int| #![auto]
                0 <= j < old(self)@.len() ==> final(self)@[j].0 == old(self)@[j].0
                    && final(self)@[j].1 == dedup_classes(old(self)@[j].1),
            old(self).wf() ==> final(self).wf(),
    {
        let mut j: usize = 0;
        while j < self.table.len()
            invariant
                0 <= j <= self.table@.len(),
                self@.len() == old(self)@.len(),
                forall|t: int|
                    0 <= t < j ==> self@[t].0 == old(self)@[t].0 && self@[t].1 == dedup_classes(
                        old(self)@[t].1,
                    ),
                forall|t: int| j <= t < self@.len() ==> self@[t] == old(self)@[t],
            decreases self.table@.len() - j,
        {
            let deduped = dedup_vec(&self.table[j].1);
            let key = self.table[j].0.clone();
            self.table.set(j, (key, deduped));
            j = j + 1;
        }
    }
}

/// Whether the section at position `k` repeats an earlier section of `s`.
pub open spec fn dup_of_earlier(s: Seq<Seq<Slot>>, k: int) -> bool {
    exists|i: int| 0 <= i < k && class_equiv(s[i], s[k])
}

/// The section list with every repetition of an earlier section removed;
/// first occurrences stay, in their original order.
pub open spec fn dedup_classes(s: Seq<Seq<Slot>>) -> Seq<Seq<Slot>>
    decreases s.len(),
{
    if s.len() == 0 {
        Seq::empty()
    } else if dup_of_earlier(s, s.len() - 1) {
        dedup_classes(s.drop_last())
    } else {
        dedup_classes(s.drop_last()).push(s.last())
    }
}

/// Everything `dedup_classes` keeps comes from the original list.
proof fn lemma_dedup_contains(s: Seq<Seq<Slot>>, x: Seq<Slot>)
    requires
        dedup_classes(s).contains(x),
    ensures
        s.contains(x),
    decreases s.len(),
{
    if s.len() > 0 {
        if dedup_classes(s.drop_last()).contains(x) {
            lemma_dedup_contains(s.drop_last(), x);
            let i = choose|i: int| 0 <= i < s.drop_last().len() && s.drop_last()[i] == x;
            assert(s[i] == x);
        } else {
            assert(x == s.last());
        }
    }
}

/// No two sections that `dedup_classes` keeps repeat one another.
proof fn lemma_dedup_pairwise(s: Seq<Seq<Slot>>)
    ensures
        forall|j: int, k: int|
            0 <= j < k < dedup_classes(s).len() ==> !class_equiv(
                dedup_classes(s)[j],
                dedup_classes(s)[k],
            ),
    decreases s.len(),
{
    if s.len() > 0 {
        lemma_dedup_pairwise(s.drop_last());
        let d = dedup_classes(s);
        let dp = dedup_classes(s.drop_last());
        if !dup_of_earlier(s, s.len() - 1) {
            assert forall|j: int, k: int| 0 <= j < k < d.len() implies !class_equiv(
                d[j],
                d[k],
            ) by {
                if k == d.len() - 1 {
                    assert(d[k] == s.last());
                    assert(dp.contains(dp[j]));
                    lemma_dedup_contains(s.drop_last(), dp[j]);
                    let i = choose|i: int|
                        0 <= i < s.drop_last().len() && s.drop_last()[i] == dp[j];
                    assert(s[i] == dp[j]);
                    if class_equiv(d[j], d[k]) {
                        assert(class_equiv(s[i], s[s.len() - 1]));
                        assert(dup_of_earlier(s, s.len() - 1));
                    }
                }
            }
        }
    }
}

/// On a list with no repetitions, `dedup_classes` changes nothing.
proof fn lemma_dedup_clean_identity(s: Seq<Seq<Slot>>)
    requires
        forall|j: int, k: int| 0 <= j < k < s.len() ==> !class_equiv(s[j], s[k]),
    ensures
        dedup_classes(s) == s,
    decreases s.len(),
{
    if s.len() == 0 {
        assert(dedup_classes(s) =~= s);
    } else {
        lemma_dedup_clean_identity(s.drop_last());
        assert(!dup_of_earlier(s, s.len() - 1));
        assert(dedup_classes(s) =~= s);
    }
}

/// Deduplicating a section list twice yields the same result as
/// deduplicating it once.
pub proof fn lemma_dedup_idempotent(s: Seq<Seq<Slot>>)
    ensures
        dedup_classes(dedup_classes(s)) == dedup_classes(s),
{
    lemma_dedup_pairwise(s);
    lemma_dedup_clean_identity(dedup_classes(s));
}

/// Drops from `classes` each section equal (order-independently) to an
/// earlier one of the same list.
pub fn dedup_vec(classes: &Vec<Class>) -> (r: Vec<Class>)
    ensures
        class_views(r@) == dedup_classes(class_views(classes@)),
{
    let ghost v = class_views(classes@);
    let mut r: Vec<Class> = Vec::new();
    let mut k: usize = 0;
    while k < classes.len()
        invariant
            0 <= k <= classes@.len(),
            v == class_views(classes@),
            class_views(r@) == dedup_classes(v.take(k as int)),
        decreases classes@.len() - k,
    {
        let mut found: bool = false;
        let mut i: usize = 0;
        while i < k
            invariant
                0 <= i <= k < classes@.len(),
                v == class_views(classes@),
                found == exists|t: int| 0 <= t < i && class_equiv(v[t], v[k as int]),
            decreases k - i,
        {
            let same = classes[i] == classes[k];
            proof {
                assert(v[i as int] == classes@[i as int]@);
                assert(v[k as int] == classes@[k as int]@);
                assert(same == class_equiv(v[i as int], v[k as int]));
            }
            if same {
                found = true;
            }
            i = i + 1;
        }
        proof {
            assert(v.take(k + 1).drop_last() =~= v.take(k as int));
            assert(v.take(k + 1).last() == v[k as int]);
            assert(dup_of_earlier(v.take(k + 1), k as int) == found) by {
                if found {
                    let t = choose|t: int| 0 <= t < k && class_equiv(v[t], v[k as int]);
                    assert(v.take(k + 1)[t] == v[t]);
                    assert(class_equiv(v.take(k + 1)[t], v.take(k + 1)[k as int]));
                } else {
                    if dup_of_earlier(v.take(k + 1), k as int) {
                        let t = choose|t: int|
                            0 <= t < k && #[trigger] class_equiv(
                                v.take(k + 1)[t],
                                v.take(k + 1)[k as int],
                            );
                        assert(v.take(k + 1)[t] == v[t]);
                    }
                }
            }
        }
        if !found {
            r.push(classes[k].clone());
            proof {
                assert(class_views(r@) =~= dedup_classes(v.take(k + 1)));
            }
        } else {
            proof {
                assert(class_views(r@) =~= dedup_classes(v.take(k + 1)));
            }
        }
        k = k + 1;
    }
    proof {
        assert(v.take(v.len() as int) =~= v);
    }
    r
}

} // verus!
