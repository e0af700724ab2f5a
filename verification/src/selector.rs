//! The candidate selector: among the subjects still eligible for the term
//! being built, picks the most constrained one — the one with the fewest
//! collision-free sections — breaking ties towards the earliest table entry.

use vstd::prelude::*;
use vstd::pervasive::unreached;
use crate::classes::Class;
use crate::conflict::{filter_free, free_classes, table_has_code, table_has_key, table_view};
use crate::credits::{spec_credit, CreditMap};
use crate::slots::Slot;
use crate::timesheet::{str_views, contains_string, Timesheet};

verus! {

/// How many sections of timesheet entry `i` are collision-free against
/// `table`.
pub open spec fn free_count(
    ts: Seq<(Seq<char>, Seq<Seq<Slot>>)>,
    i: int,
    table: Seq<(Seq<char>, Seq<Slot>)>,
) -> int {
    filter_free(ts[i].1, table).len() as int
}

/// Whether timesheet entry `i` may still be added to the term being built:
/// its subject is not yet covered globally nor chosen this term, its weight
/// fits under the credit cap, and it keeps at least one collision-free
/// section.
pub open spec fn qualifies(
    ts: Seq<(Seq<char>, Seq<Seq<Slot>>)>,
    i: int,
    satisfied: Seq<Seq<char>>,
    table: Seq<(Seq<char>, Seq<Slot>)>,
    crm: Seq<(Seq<char>, u8)>,
    cr_count: u8,
    cr_max: u8,
) -> bool {
    0 <= i < ts.len() && spec_credit(crm, ts[i].0) is Some && cr_count + spec_credit(
        crm,
        ts[i].0,
    ).unwrap() <= cr_max && free_count(ts, i, table) > 0 && !table_has_key(table, ts[i].0)
        && !satisfied.contains(ts[i].0)
}

/// The qualifying entry among the first `n` with the fewest collision-free
/// sections, the earliest such entry on ties; `None` when none qualifies.
pub open spec fn best_next(
    ts: Seq<(Seq<char>, Seq<Seq<Slot>>)>,
    n: int,
    satisfied: Seq<Seq<char>>,
    table: Seq<(Seq<char>, Seq<Slot>)>,
    crm: Seq<(Seq<char>, u8)>,
    cr_count: u8,
    cr_max: u8,
) -> Option<int>
    decreases n,
{
    if n <= 0 {
        None
    } else {
        let prev = best_next(ts, n - 1, satisfied, table, crm, cr_count, cr_max);
        if qualifies(ts, n - 1, satisfied, table, crm, cr_count, cr_max) && (prev is None
            || free_count(ts, n - 1, table) < free_count(ts, prev.unwrap(), table)) {
            Some(n - 1)
        } else {
            prev
        }
    }
}

/// What `best_next` returns: a qualifying entry that no other qualifying
/// entry beats, either by a strictly smaller collision-free section count or
/// by an equal count at an earlier position.
pub proof fn lemma_best_next_characterization(
    ts: Seq<(Seq<char>, Seq<Seq<Slot>>)>,
    n: int,
    satisfied: Seq<Seq<char>>,
    table: Seq<(Seq<char>, Seq<Slot>)>,
    crm: Seq<(Seq<char>, u8)>,
    cr_count: u8,
    cr_max: u8,
)
    ensures
        best_next(ts, n, satisfied, table, crm, cr_count, cr_max) is None ==> forall|j: int|
            j < n ==> !qualifies(ts, j, satisfied, table, crm, cr_count, cr_max),
        best_next(ts, n, satisfied, table, crm, cr_count, cr_max) matches Some(i) ==> qualifies(
            ts,
            i,
            satisfied,
            table,
            crm,
            cr_count,
            cr_max,
        ) && i < n && forall|j: int|
            0 <= j < n && #[trigger] qualifies(ts, j, satisfied, table, crm, cr_count, cr_max)
                ==> free_count(ts, i, table) < free_count(ts, j, table) || (free_count(ts, i, table)
                == free_count(ts, j, table) && i <= j),
    decreases n,
{
    if n > 0 {
        lemma_best_next_characterization(ts, n - 1, satisfied, table, crm, cr_count, cr_max);
    }
}

/// The non-empty entry among the first `n` with the fewest sections, the
/// earliest such entry on ties; `None` when every entry is empty.
pub open spec fn best_first(ts: Seq<(Seq<char>, Seq<Seq<Slot>>)>, n: int) -> Option<int>
    decreases n,
{
    if n <= 0 {
        None
    } else {
        let prev = best_first(ts, n - 1);
        if ts[n - 1].1.len() > 0 && (prev is None || ts[n - 1].1.len() < ts[prev.unwrap()].1.len())
        {
            Some(n - 1)
        } else {
            prev
        }
    }
}

/// What `best_first` returns is a non-empty entry within bounds.
pub proof fn lemma_best_first_bounds(ts: Seq<(Seq<char>, Seq<Seq<Slot>>)>, n: int)
    ensures
        best_first(ts, n) matches Some(i) ==> 0 <= i < n && ts[i].1.len() > 0,
    decreases n,
{
    if n > 0 {
        lemma_best_first_bounds(ts, n - 1);
    }
}

/// Picks the seed subject for an empty search: the timesheet entry offering
/// the fewest sections, skipping subjects with none; the earliest such entry
/// on ties.
pub fn get_first_subject(ts: &Timesheet) -> (r: Option<usize>)
    ensures
        r is Some <==> best_first(ts@, ts@.len() as int) is Some,
        r matches Some(i) ==> best_first(ts@, ts@.len() as int) == Some(i as int) && i < ts@.len(),
{
    let mut chosen: Option<usize> = None;
    let mut best_len: usize = 0;
    let mut i: usize = 0;
    while i < ts.table.len()
        invariant
            0 <= i <= ts@.len(),
            chosen is None ==> best_first(ts@, i as int) is None,
            chosen matches Some(c) ==> best_first(ts@, i as int) == Some(c as int) && c < ts@.len()
                && best_len == ts@[c as int].1.len(),
        decreases ts@.len() - i,
    {
        let len_i = ts.table[i].1.len();
        proof {
            assert(ts@[i as int].1 == crate::timesheet::class_views(ts.table@[i as int].1@));
        }
        if len_i > 0 && (chosen.is_none() || len_i < best_len) {
            chosen = Some(i);
            best_len = len_i;
        }
        i = i + 1;
    }
    chosen
}

/// Asks which subject to try next for the term being built; `None` means the
/// term is finished — nothing more can be added.
pub fn get_next_subject(
    ts: &Timesheet,
    satisfied: &Vec<String>,
    current: &Vec<(String, Class)>,
    cr_map: &CreditMap,
    cr_count: u8,
    cr_max: u8,
) -> (r: Option<usize>)
    requires
        forall|i: int| 0 <= i < ts@.len() ==> spec_credit(cr_map@, #[trigger] ts@[i].0) is Some,
    ensures
        r is Some <==> best_next(
            ts@,
            ts@.len() as int,
            str_views(satisfied@),
            table_view(current@),
            cr_map@,
            cr_count,
            cr_max,
        ) is Some,
        r matches Some(i) ==> best_next(
            ts@,
            ts@.len() as int,
            str_views(satisfied@),
            table_view(current@),
            cr_map@,
            cr_count,
            cr_max,
        ) == Some(i as int) && i < ts@.len(),
{
    let ghost satv = str_views(satisfied@);
    let ghost tabv = table_view(current@);
    let mut chosen: Option<usize> = None;
    let mut best_count: usize = 0;
    let mut i: usize = 0;
    while i < ts.table.len()
        invariant
            0 <= i <= ts@.len(),
            satv == str_views(satisfied@),
            tabv == table_view(current@),
            forall|t: int| 0 <= t < ts@.len() ==> spec_credit(cr_map@, #[trigger] ts@[t].0) is Some,
            chosen is None ==> best_next(ts@, i as int, satv, tabv, cr_map@, cr_count, cr_max)
                is None,
            chosen matches Some(c) ==> best_next(ts@, i as int, satv, tabv, cr_map@, cr_count,
            cr_max) == Some(c as int) && c < ts@.len() && best_count == free_count(
                ts@,
                c as int,
                tabv,
            ),
        decreases ts@.len() - i,
    {
        proof {
            assert(ts@[i as int] == (
                ts.table@[i as int].0@,
                crate::timesheet::class_views(ts.table@[i as int].1@),
            ));
        }
        let code = &ts.table[i].0;
        let cr_opt = cr_map.credit_of(code);
        proof {
            assert(code@ == ts@[i as int].0);
            assert(cr_opt is Some);
        }
        let cr = match cr_opt {
            Some(c) => c,
            None => unreached(),
        };
        let fits = cr_count as u16 + cr as u16 <= cr_max as u16;
        let frees = free_classes(&ts.table[i].1, current);
        let eligible = fits && frees.len() > 0 && !table_has_code(current, code)
            && !contains_string(satisfied, code);
        proof {
            assert(frees@.len() == crate::timesheet::class_views(frees@).len());
            assert(eligible == qualifies(ts@, i as int, satv, tabv, cr_map@, cr_count, cr_max));
        }
        if eligible && (chosen.is_none() || frees.len() < best_count) {
            chosen = Some(i);
            best_count = frees.len();
        }
        i = i + 1;
    }
    chosen
}

} // verus!
