//! The conflict checker: whether a candidate slot, or a whole candidate
//! section, collides with what a term assignment already holds.

use vstd::prelude::*;
use crate::classes::Class;
use crate::slots::{slot_conflicts_with, slots_overlap, Slot};

verus! {

/// The code and slot list of each chosen section of a term assignment.
pub open spec fn table_view(s: Seq<(String, Class)>) -> Seq<(Seq<char>, Seq<Slot>)> {
    s.map_values(|e: (String, Class)| (e.0@, e.1@))
}

/// Whether `slot` collides with any slot already assigned in `table`.
pub open spec fn slot_conflicts_table(slot: Slot, table: Seq<(Seq<char>, Seq<Slot>)>) -> bool {
    exists|i: int, j: int|
        0 <= i < table.len() && 0 <= j < table[i].1.len() && slots_overlap(slot, table[i].1[j])
}

/// Whether every slot of the section `cl` is collision-free against `table`.
pub open spec fn class_free(cl: Seq<Slot>, table: Seq<(Seq<char>, Seq<Slot>)>) -> bool {
    forall|s: int| 0 <= s < cl.len() ==> !slot_conflicts_table(cl[s], table)
}

/// No two slots of `table`, whatever entries they belong to, collide.
pub open spec fn table_conflict_free(table: Seq<(Seq<char>, Seq<Slot>)>) -> bool {
    forall|i: int, j: int, a: int, b: int|
        0 <= i < table.len() && 0 <= j < table.len() && i != j && 0 <= a < table[i].1.len() && 0
            <= b < table[j].1.len() ==> !slots_overlap(table[i].1[a], table[j].1[b])
}

/// Adding a section whose slots are all collision-free keeps the whole
/// assignment collision-free.
pub proof fn lemma_push_free_preserves_conflict_free(
    table: Seq<(Seq<char>, Seq<Slot>)>,
    key: Seq<char>,
    cls: Seq<Slot>,
)
    requires
        table_conflict_free(table),
        class_free(cls, table),
    ensures
        table_conflict_free(table.push((key, cls))),
{
    let new = table.push((key, cls));
    assert forall|i: int, j: int, a: int, b: int|
        0 <= i < new.len() && 0 <= j < new.len() && i != j && 0 <= a < new[i].1.len() && 0 <= b
            < new[j].1.len() implies !crate::slots::slots_overlap(new[i].1[a], new[j].1[b]) by {
        if i < table.len() && j < table.len() {
            assert(new[i] == table[i] && new[j] == table[j]);
        } else if i == table.len() {
            assert(new[i].1 == cls && new[j] == table[j]);
            if crate::slots::slots_overlap(cls[a], table[j].1[b]) {
                assert(slot_conflicts_table(cls[a], table));
            }
            assert(!slot_conflicts_table(cls[a], table));
        } else {
            assert(new[j].1 == cls && new[i] == table[i]);
            assert(!slot_conflicts_table(cls[b], table));
            crate::slots::lemma_slots_overlap_symmetric(new[i].1[a], new[j].1[b]);
            if crate::slots::slots_overlap(cls[b], table[i].1[a]) {
                assert(slot_conflicts_table(cls[b], table));
            }
        }
    }
}

/// Whether some entry of `table` carries the code `k`.
pub open spec fn table_has_key(table: Seq<(Seq<char>, Seq<Slot>)>, k: Seq<char>) -> bool {
    exists|t: int| 0 <= t < table.len() && table[t].0 == k
}

/// Whether a section for `code` is already chosen in `current`.
pub fn table_has_code(current: &Vec<(String, Class)>, code: &String) -> (r: bool)
    ensures
        r == table_has_key(table_view(current@), code@),
{
    let mut i: usize = 0;
    while i < current.len()
        invariant
            0 <= i <= current@.len(),
            forall|t: int| 0 <= t < i ==> table_view(current@)[t].0 != code@,
        decreases current@.len() - i,
    {
        proof {
            assert(table_view(current@)[i as int].0 == current@[i as int].0@);
        }
        if current[i].0.eq(code) {
            proof {
                assert(table_has_key(table_view(current@), code@));
            }
            return true;
        }
        i = i + 1;
    }
    false
}

/// Whether `slot` collides with any slot of any section already chosen in
/// `current`.
pub fn does_slot_conflict(slot: &Slot, current: &Vec<(String, Class)>) -> (r: bool)
    ensures
        r == slot_conflicts_table(*slot, table_view(current@)),
{
    let mut i: usize = 0;
    while i < current.len()
        invariant
            0 <= i <= current@.len(),
            forall|t: int, j: int|
                0 <= t < i && 0 <= j < table_view(current@)[t].1.len() ==> !slots_overlap(
                    *slot,
                    table_view(current@)[t].1[j],
                ),
        decreases current@.len() - i,
    {
        let cl = &current[i].1;
        let mut j: usize = 0;
        while j < cl.0.len()
            invariant
                0 <= j <= cl@.len(),
                0 <= i < current@.len(),
                cl@ == table_view(current@)[i as int].1,
                forall|t: int| 0 <= t < j ==> !slots_overlap(*slot, cl@[t]),
            decreases cl@.len() - j,
        {
            if slot_conflicts_with(slot, &cl.0[j]) {
                return true;
            }
            j = j + 1;
        }
        i = i + 1;
    }
    false
}

/// Whether the whole section `cl` is collision-free against `current`.
pub fn class_is_free(cl: &Class, current: &Vec<(String, Class)>) -> (r: bool)
    ensures
        r == class_free(cl@, table_view(current@)),
{
    let mut s: usize = 0;
    while s < cl.0.len()
        invariant
            0 <= s <= cl@.len(),
            forall|t: int| 0 <= t < s ==> !slot_conflicts_table(cl@[t], table_view(current@)),
        decreases cl@.len() - s,
    {
        if does_slot_conflict(&cl.0[s], current) {
            return false;
        }
        s = s + 1;
    }
    true
}

/// The sections of `cs` whose every slot is collision-free against `table`,
/// kept in their original order.
pub open spec fn filter_free(
    cs: Seq<Seq<Slot>>,
    table: Seq<(Seq<char>, Seq<Slot>)>,
) -> Seq<Seq<Slot>>
    decreases cs.len(),
{
    if cs.len() == 0 {
        Seq::empty()
    } else if class_free(cs.last(), table) {
        filter_free(cs.drop_last(), table).push(cs.last())
    } else {
        filter_free(cs.drop_last(), table)
    }
}

/// Every section that `filter_free` keeps is collision-free and comes from
/// the original list.
pub proof fn lemma_filter_free_elems(cs: Seq<Seq<Slot>>, table: Seq<(Seq<char>, Seq<Slot>)>)
    ensures
        forall|t: int|
            0 <= t < filter_free(cs, table).len() ==> class_free(filter_free(cs, table)[t], table)
                && cs.contains(filter_free(cs, table)[t]),
    decreases cs.len(),
{
    if cs.len() > 0 {
        lemma_filter_free_elems(cs.drop_last(), table);
        assert forall|t: int| 0 <= t < filter_free(cs, table).len() implies class_free(
            filter_free(cs, table)[t],
            table,
        ) && cs.contains(filter_free(cs, table)[t]) by {
            let ff = filter_free(cs, table);
            let fp = filter_free(cs.drop_last(), table);
            if class_free(cs.last(), table) && t == ff.len() - 1 {
                assert(ff[t] == cs.last());
                assert(cs[cs.len() - 1] == cs.last());
            } else {
                assert(ff[t] == fp[t]);
                let i = choose|i: int|
                    0 <= i < cs.drop_last().len() && cs.drop_last()[i] == fp[t];
                assert(cs[i] == fp[t]);
            }
        }
    }
}

/// Computes [`filter_free`]: the collision-free sections of `classes`
/// against `current`, in their original order.
pub fn free_classes(classes: &Vec<Class>, current: &Vec<(String, Class)>) -> (r: Vec<Class>)
    ensures
        crate::timesheet::class_views(r@) == filter_free(
            crate::timesheet::class_views(classes@),
            table_view(current@),
        ),
{
    let ghost v = crate::timesheet::class_views(classes@);
    let mut r: Vec<Class> = Vec::new();
    let mut k: usize = 0;
    while k < classes.len()
        invariant
            0 <= k <= classes@.len(),
            v == crate::timesheet::class_views(classes@),
            crate::timesheet::class_views(r@) == filter_free(
                v.take(k as int),
                table_view(current@),
            ),
        decreases classes@.len() - k,
    {
        let free = class_is_free(&classes[k], current);
        proof {
            assert(v.take(k + 1).drop_last() =~= v.take(k as int));
            assert(v.take(k + 1).last() == v[k as int]);
            assert(v[k as int] == classes@[k as int]@);
        }
        if free {
            r.push(classes[k].clone());
        }
        proof {
            assert(crate::timesheet::class_views(r@) =~= filter_free(
                v.take(k + 1),
                table_view(current@),
            ));
        }
        k = k + 1;
    }
    proof {
        assert(v.take(v.len() as int) =~= v);
    }
    r
}

} // verus!
