//! The branching search engine: drives a population of in-progress
//! multi-term plans forward one term at a time, forking whenever a subject
//! keeps more than one collision-free section, until every plan covers every
//! subject — or an injected step budget runs out.

use vstd::prelude::*;
use vstd::pervasive::unreached;
use crate::classes::Class;
use crate::conflict::{
    class_free, filter_free, free_classes, table_conflict_free, table_view,
};
use crate::credits::{spec_credit, CreditMap};
use crate::selector::{best_first, best_next, get_first_subject, get_next_subject};
use crate::slots::Slot;
use crate::timesheet::{class_views, contains_string, str_views, Timesheet};

verus! {

/// One term assignment being built: the chosen section per subject, the
/// running credit total, and whether the term can take no further subject.
#[derive(Debug)]
pub struct ScheduleInProgress {
    pub table: Vec<(String, Class)>,
    pub finished: bool,
    pub cr_count: u8,
}

/// The mathematical value of a term assignment.
pub ghost struct SchedView {
    pub table: Seq<(Seq<char>, Seq<Slot>)>,
    pub finished: bool,
    pub cr_count: u8,
}

impl View for ScheduleInProgress {
    type V = SchedView;

    open spec fn view(&self) -> SchedView {
        SchedView {
            table: table_view(self.table@),
            finished: self.finished,
            cr_count: self.cr_count,
        }
    }
}

impl Clone for ScheduleInProgress {
    fn clone(&self) -> (r: Self)
        ensures
            r@ == self@,
    {
        let mut table: Vec<(String, Class)> = Vec::new();
        let mut i: usize = 0;
        while i < self.table.len()
            invariant
                0 <= i <= self.table@.len(),
                table@.len() == i,
                forall|t: int|
                    0 <= t < i ==> #[trigger] table@[t].0@ == self.table@[t].0@ && table@[t].1@
                        == self.table@[t].1@,
            decreases self.table@.len() - i,
        {
            let k = self.table[i].0.clone();
            let c = self.table[i].1.clone();
            proof {
                assert(k@ == self.table@[i as int].0@);
                assert(c@ == self.table@[i as int].1@);
            }
            let ghost pre = table@;
            table.push((k, c));
            proof {
                assert forall|t: int|
                    0 <= t < i + 1 implies #[trigger] table@[t].0@ == self.table@[t].0@
                    && table@[t].1@ == self.table@[t].1@ by {
                    if t < i {
                        assert(table@[t] == pre[t]);
                        assert(pre[t].0@ == self.table@[t].0@);
                        assert(pre[t].1@ == self.table@[t].1@);
                    } else {
                        assert(table@[t] == (k, c));
                    }
                }
            }
            i = i + 1;
        }
        let r = ScheduleInProgress { table, finished: self.finished, cr_count: self.cr_count };
        proof {
            assert forall|t: int| 0 <= t < r@.table.len() implies r@.table[t] == self@.table[t] by {
                assert(r@.table[t] == (r.table@[t].0@, r.table@[t].1@));
                assert(self@.table[t] == (self.table@[t].0@, self.table@[t].1@));
            }
            assert(r@.table =~= self@.table);
        }
        r
    }
}

/// One plan being built: a term assignment per term so far, the subjects
/// covered across all terms, and the number of subjects to cover in all.
#[derive(Debug)]
pub struct SolutionInProgress {
    pub schedules: Vec<ScheduleInProgress>,
    pub satisfied: Vec<String>,
    pub goal: u8,
}

/// The mathematical value of a plan being built.
pub ghost struct PlanView {
    pub schedules: Seq<SchedView>,
    pub satisfied: Seq<Seq<char>>,
    pub goal: u8,
}

impl View for SolutionInProgress {
    type V = PlanView;

    open spec fn view(&self) -> PlanView {
        PlanView {
            schedules: self.schedules@.map_values(|s: ScheduleInProgress| s@),
            satisfied: str_views(self.satisfied@),
            goal: self.goal,
        }
    }
}

impl Clone for SolutionInProgress {
    fn clone(&self) -> (r: Self)
        ensures
            r@ == self@,
    {
        let r = SolutionInProgress {
            schedules: self.schedules.clone(),
            satisfied: self.satisfied.clone(),
            goal: self.goal,
        };
        proof {
            assert(r@.schedules =~= self@.schedules);
            assert(r@.satisfied =~= self@.satisfied);
        }
        r
    }
}

impl SolutionInProgress {
    /// Whether every term assignment of the plan is finished.
    pub fn finished(&self) -> (r: bool)
        ensures
            r == plan_all_finished(self@),
    {
        let mut i: usize = 0;
        while i < self.schedules.len()
            invariant
                0 <= i <= self@.schedules.len(),
                forall|t: int| 0 <= t < i ==> self@.schedules[t].finished,
            decreases self@.schedules.len() - i,
        {
            proof {
                assert(self@.schedules[i as int] == self.schedules@[i as int]@);
            }
            if !self.schedules[i].finished {
                return false;
            }
            i = i + 1;
        }
        true
    }

    /// Whether the plan has covered every subject it set out to cover.
    pub fn solved(&self) -> (r: bool)
        ensures
            r == plan_solved(self@),
    {
        self.satisfied.len() == self.goal as usize
    }
}

/// Every term assignment of the plan is finished.
pub open spec fn plan_all_finished(p: PlanView) -> bool {
    forall|t: int| 0 <= t < p.schedules.len() ==> p.schedules[t].finished
}

/// The plan has covered exactly as many subjects as its goal asks.
pub open spec fn plan_solved(p: PlanView) -> bool {
    p.satisfied.len() == p.goal as int
}

/// The subject codes of a term assignment, in the order they were chosen.
pub open spec fn sched_keys(sc: SchedView) -> Seq<Seq<char>> {
    sc.table.map_values(|e: (Seq<char>, Seq<Slot>)| e.0)
}

/// The subject codes of a whole plan, term by term, in the order they were
/// chosen.
pub open spec fn keys_concat(ss: Seq<SchedView>) -> Seq<Seq<char>>
    decreases ss.len(),
{
    if ss.len() == 0 {
        Seq::empty()
    } else {
        keys_concat(ss.drop_last()) + sched_keys(ss.last())
    }
}

/// The total credit weight `crm` gives to `keys`.
pub open spec fn credit_sum(keys: Seq<Seq<char>>, crm: Seq<(Seq<char>, u8)>) -> int
    decreases keys.len(),
{
    if keys.len() == 0 {
        0
    } else {
        credit_sum(keys.drop_last(), crm) + match spec_credit(crm, keys.last()) {
            Some(c) => c as int,
            None => 0,
        }
    }
}

/// What every term assignment the engine builds satisfies: no two chosen
/// sections collide, each chosen subject has a recorded credit weight, and
/// the credit counter equals the total weight of the chosen subjects.
pub open spec fn sched_wf(sc: SchedView, crm: Seq<(Seq<char>, u8)>) -> bool {
    table_conflict_free(sc.table) && sc.cr_count == credit_sum(sched_keys(sc), crm) && forall|
        t: int,
    | 0 <= t < sc.table.len() ==> spec_credit(crm, #[trigger] sc.table[t].0) is Some
}

/// What every plan the engine builds satisfies: every term is well-formed,
/// the covered-subject list is exactly the concatenation of the terms'
/// subject lists, no subject is covered twice, every covered subject belongs
/// to the catalog, and every term but the last is finished.
pub open spec fn plan_wf(p: PlanView, crm: Seq<(Seq<char>, u8)>, subjects: Seq<Seq<char>>) -> bool {
    p.schedules.len() >= 1 && p.goal as int == subjects.len() && (forall|t: int|
        0 <= t < p.schedules.len() ==> sched_wf(#[trigger] p.schedules[t], crm)) && (forall|t: int|
        0 <= t < p.schedules.len() - 1 ==> p.schedules[t].finished) && p.satisfied == keys_concat(
        p.schedules,
    ) && p.satisfied.no_duplicates() && (forall|k: int|
        0 <= k < p.satisfied.len() ==> subjects.contains(#[trigger] p.satisfied[k]))
}

/// The per-term credit caps hold throughout the plan.
pub open spec fn plan_within_cap(p: PlanView, cr_max: u8) -> bool {
    forall|t: int| 0 <= t < p.schedules.len() ==> #[trigger] p.schedules[t].cr_count <= cr_max
}

/// The mathematical values of a list of plans.
pub open spec fn plan_views(s: Seq<SolutionInProgress>) -> Seq<PlanView> {
    s.map_values(|p: SolutionInProgress| p@)
}

/// The plan after committing section `cls` of subject `key`, of weight `cr`,
/// into its current (last) term.
pub open spec fn plan_committed(p: PlanView, key: Seq<char>, cls: Seq<Slot>, cr: u8) -> PlanView {
    let cur = p.schedules.last();
    PlanView {
        schedules: p.schedules.update(
            p.schedules.len() - 1,
            SchedView {
                table: cur.table.push((key, cls)),
                finished: cur.finished,
                cr_count: (cur.cr_count + cr) as u8,
            },
        ),
        satisfied: p.satisfied.push(key),
        goal: p.goal,
    }
}

/// The plan after marking its current (last) term finished.
pub open spec fn plan_term_closed(p: PlanView) -> PlanView {
    let cur = p.schedules.last();
    PlanView {
        schedules: p.schedules.update(
            p.schedules.len() - 1,
            SchedView { table: cur.table, finished: true, cr_count: cur.cr_count },
        ),
        satisfied: p.satisfied,
        goal: p.goal,
    }
}

/// What one engine step does to one plan: when the selector still finds a
/// subject, the plan commits that subject's first collision-free section and
/// spawns one clone per further collision-free section; when it finds none,
/// the current term is marked finished. The pair holds the stepped plan and
/// the spawned clones, in section order.
pub open spec fn plan_step_result(
    p: PlanView,
    tsv: Seq<(Seq<char>, Seq<Seq<Slot>>)>,
    crm: Seq<(Seq<char>, u8)>,
    cr_max: u8,
) -> (PlanView, Seq<PlanView>) {
    let cur = p.schedules.last();
    match best_next(tsv, tsv.len() as int, p.satisfied, cur.table, crm, cur.cr_count, cr_max) {
        Option::None => (plan_term_closed(p), Seq::empty()),
        Option::Some(si) => {
            let ff = filter_free(tsv[si].1, cur.table);
            let key = tsv[si].0;
            let cr = spec_credit(crm, key).unwrap();
            (
                plan_committed(p, key, ff[0], cr),
                Seq::new((ff.len() - 1) as nat, |j: int| plan_committed(p, key, ff[j + 1], cr)),
            )
        },
    }
}

/// Committing a qualifying subject's collision-free section into a
/// well-formed plan keeps it well-formed, and the new term total still
/// respects the cap.
proof fn lemma_commit_wf(
    p: PlanView,
    tsv: Seq<(Seq<char>, Seq<Seq<Slot>>)>,
    crm: Seq<(Seq<char>, u8)>,
    cr_max: u8,
    subjects: Seq<Seq<char>>,
    si: int,
    cls: Seq<Slot>,
)
    requires
        plan_wf(p, crm, subjects),
        crate::selector::qualifies(
            tsv,
            si,
            p.satisfied,
            p.schedules.last().table,
            crm,
            p.schedules.last().cr_count,
            cr_max,
        ),
        class_free(cls, p.schedules.last().table),
        subjects.contains(tsv[si].0),
    ensures
        ({
            let q = plan_committed(p, tsv[si].0, cls, spec_credit(crm, tsv[si].0).unwrap());
            plan_wf(q, crm, subjects) && q.schedules.len() == p.schedules.len() && q.goal == p.goal
                && q.schedules.last().cr_count <= cr_max && (forall|t: int|
                0 <= t < p.schedules.len() - 1 ==> q.schedules[t] == p.schedules[t])
                && q.satisfied == p.satisfied.push(tsv[si].0)
        }),
{
    let key = tsv[si].0;
    let cr = spec_credit(crm, key).unwrap();
    let cur = p.schedules.last();
    let q = plan_committed(p, key, cls, cr);
    let l = p.schedules.len() - 1;
    crate::conflict::lemma_push_free_preserves_conflict_free(cur.table, key, cls);
    assert(sched_keys(q.schedules[l]) =~= sched_keys(cur).push(key));
    assert(sched_keys(cur).push(key).drop_last() =~= sched_keys(cur));
    assert(credit_sum(sched_keys(q.schedules[l]), crm) == credit_sum(sched_keys(cur), crm)
        + cr as int);
    assert(cur.cr_count + cr <= cr_max);
    assert(q.schedules[l].cr_count == cur.cr_count + cr);
    assert(sched_wf(q.schedules[l], crm));
    assert(q.schedules.drop_last() =~= p.schedules.drop_last());
    assert(keys_concat(q.schedules) == keys_concat(q.schedules.drop_last()) + sched_keys(
        q.schedules.last(),
    ));
    assert(keys_concat(p.schedules) == keys_concat(p.schedules.drop_last()) + sched_keys(cur));
    assert(q.satisfied =~= keys_concat(q.schedules));
    assert(!p.satisfied.contains(key));
    assert forall|a: int, b: int|
        0 <= a < q.satisfied.len() && 0 <= b < q.satisfied.len() && a != b implies q.satisfied[a]
        != q.satisfied[b] by {
        if a < p.satisfied.len() && b < p.satisfied.len() {
        } else if a == p.satisfied.len() {
            assert(q.satisfied[a] == key && q.satisfied[b] == p.satisfied[b]);
        } else {
            assert(q.satisfied[b] == key && q.satisfied[a] == p.satisfied[a]);
        }
    }
    assert(q.satisfied.no_duplicates());
}

/// One engine step keeps every plan it yields — the stepped plan and all its
/// clones — well-formed, within the credit cap, of unchanged goal and term
/// count.
pub proof fn lemma_step_preserves_wf(
    p: PlanView,
    tsv: Seq<(Seq<char>, Seq<Seq<Slot>>)>,
    crm: Seq<(Seq<char>, u8)>,
    cr_max: u8,
    subjects: Seq<Seq<char>>,
)
    requires
        plan_wf(p, crm, subjects),
        plan_within_cap(p, cr_max),
        forall|i: int| 0 <= i < tsv.len() ==> subjects.contains(#[trigger] tsv[i].0),
        forall|i: int| 0 <= i < tsv.len() ==> spec_credit(crm, #[trigger] tsv[i].0) is Some,
    ensures
        ({
            let (head, tail) = plan_step_result(p, tsv, crm, cr_max);
            plan_wf(head, crm, subjects) && plan_within_cap(head, cr_max) && head.schedules.len()
                == p.schedules.len() && (forall|j: int|
                0 <= j < tail.len() ==> plan_wf(#[trigger] tail[j], crm, subjects)
                    && plan_within_cap(tail[j], cr_max) && tail[j].schedules.len()
                    == p.schedules.len())
        }),
{
    let cur = p.schedules.last();
    let l = p.schedules.len() - 1;
    let b = best_next(tsv, tsv.len() as int, p.satisfied, cur.table, crm, cur.cr_count, cr_max);
    crate::selector::lemma_best_next_characterization(
        tsv,
        tsv.len() as int,
        p.satisfied,
        cur.table,
        crm,
        cur.cr_count,
        cr_max,
    );
    match b {
        Option::None => {
            let q = plan_term_closed(p);
            assert(q.schedules.drop_last() =~= p.schedules.drop_last());
            assert(sched_keys(q.schedules[l]) =~= sched_keys(cur));
            assert(keys_concat(q.schedules) == keys_concat(q.schedules.drop_last()) + sched_keys(
                q.schedules.last(),
            ));
            assert(q.satisfied =~= keys_concat(q.schedules));
            assert(sched_wf(q.schedules[l], crm));
            assert(plan_wf(q, crm, subjects));
        },
        Option::Some(si) => {
            let ff = filter_free(tsv[si].1, cur.table);
            let key = tsv[si].0;
            let cr = spec_credit(crm, key).unwrap();
            crate::conflict::lemma_filter_free_elems(tsv[si].1, cur.table);
            lemma_commit_wf(p, tsv, crm, cr_max, subjects, si, ff[0]);
            let (head, tail) = plan_step_result(p, tsv, crm, cr_max);
            assert(plan_wf(head, crm, subjects));
            assert forall|t: int| 0 <= t < head.schedules.len() implies #[trigger] head.schedules[t].cr_count
                <= cr_max by {
                if t < l {
                    assert(head.schedules[t] == p.schedules[t]);
                }
            }
            assert forall|j: int| 0 <= j < tail.len() implies plan_wf(
                #[trigger] tail[j],
                crm,
                subjects,
            ) && plan_within_cap(tail[j], cr_max) && tail[j].schedules.len()
                == p.schedules.len() by {
                lemma_commit_wf(p, tsv, crm, cr_max, subjects, si, ff[j + 1]);
                assert(tail[j] == plan_committed(p, key, ff[j + 1], cr));
                let q = tail[j];
                assert forall|t: int| 0 <= t < q.schedules.len() implies #[trigger] q.schedules[t].cr_count
                    <= cr_max by {
                    if t < l {
                        assert(q.schedules[t] == p.schedules[t]);
                    }
                }
            }
        },
    }
}

/// Advances one unfinished plan by one engine step: asks the selector for
/// the next subject and either commits its collision-free sections — the
/// first into the plan itself, each further one into a fresh clone pushed
/// onto `copies` — or, when no subject qualifies, marks the current term
/// finished. With `n` collision-free sections at this branch point, exactly
/// `n` plans trace back through it: the plan itself plus `n - 1` clones.
pub fn step_plan(
    sol: &mut SolutionInProgress,
    ts: &Timesheet,
    cr_map: &CreditMap,
    cr_max: u8,
    copies: &mut Vec<SolutionInProgress>,
)
    requires
        old(sol).schedules@.len() >= 1,
        forall|i: int| 0 <= i < ts@.len() ==> spec_credit(cr_map@, #[trigger] ts@[i].0) is Some,
    ensures
        final(sol)@ == plan_step_result(old(sol)@, ts@, cr_map@, cr_max).0,
        plan_views(final(copies)@) == plan_views(old(copies)@) + plan_step_result(
            old(sol)@,
            ts@,
            cr_map@,
            cr_max,
        ).1,
{
    let ghost p = old(sol)@;
    let idx = sol.schedules.len() - 1;
    proof {
        assert(p.schedules[idx as int] == sol.schedules@[idx as int]@);
        assert(p.schedules.last() == sol.schedules@[idx as int]@);
    }
    let next = get_next_subject(
        ts,
        &sol.satisfied,
        &sol.schedules[idx].table,
        cr_map,
        sol.schedules[idx].cr_count,
        cr_max,
    );
    let ghost cur = p.schedules.last();
    let ghost b = best_next(
        ts@,
        ts@.len() as int,
        p.satisfied,
        cur.table,
        cr_map@,
        cur.cr_count,
        cr_max,
    );
    proof {
        crate::selector::lemma_best_next_characterization(
            ts@,
            ts@.len() as int,
            p.satisfied,
            cur.table,
            cr_map@,
            cur.cr_count,
            cr_max,
        );
    }
    match next {
        None => {
            let mut sc = match sol.schedules.pop() {
                Some(s) => s,
                None => unreached(),
            };
            sc.finished = true;
            sol.schedules.push(sc);
            proof {
                assert(sol@.schedules =~= plan_term_closed(p).schedules);
                assert(sol@.satisfied =~= plan_term_closed(p).satisfied);
                assert(sol@ == plan_term_closed(p));
                assert(plan_views(copies@) =~= plan_views(copies@) + Seq::<PlanView>::empty());
            }
        },
        Some(si) => {
            let ghost ff = filter_free(ts@[si as int].1, cur.table);
            let ghost keyv = ts@[si as int].0;
            let ghost crv = spec_credit(cr_map@, keyv).unwrap();
            proof {
                assert(ts@[si as int] == (
                    ts.table@[si as int].0@,
                    class_views(ts.table@[si as int].1@),
                ));
            }
            let frees = free_classes(&ts.table[si].1, &sol.schedules[idx].table);
            proof {
                assert(class_views(frees@) == ff);
                assert(ff.len() > 0);
                assert(frees@.len() == class_views(frees@).len());
            }
            let key = ts.table[si].0.clone();
            let cr = match cr_map.credit_of(&key) {
                Some(c) => c,
                None => unreached(),
            };
            proof {
                assert(key@ == keyv);
                assert(cr == crv);
                assert(cur.cr_count + crv <= cr_max);
            }
            sol.satisfied.push(key.clone());
            let mut sc = match sol.schedules.pop() {
                Some(s) => s,
                None => unreached(),
            };
            sc.cr_count = sc.cr_count + cr;
            let cls0 = frees[0].clone();
            proof {
                assert(cls0@ == ff[0]);
            }
            sc.table.push((key.clone(), cls0));
            sol.schedules.push(sc);
            proof {
                let q = plan_committed(p, keyv, ff[0], crv);
                assert(sol@.satisfied =~= q.satisfied);
                assert(sol@.schedules[idx as int].table =~= q.schedules[idx as int].table);
                assert(sol@.schedules[idx as int] == q.schedules[idx as int]);
                assert(sol@.schedules =~= q.schedules);
                assert(sol@ == q);
            }
            let ghost copies0 = plan_views(copies@);
            let mut j: usize = 1;
            while j < frees.len()
                invariant
                    1 <= j <= frees@.len(),
                    ff == class_views(frees@),
                    keyv == key@,
                    crv == cr,
                    sol@ == plan_committed(p, keyv, ff[0], crv),
                    p.schedules.len() >= 1,
                    idx == p.schedules.len() - 1,
                    cur == p.schedules.last(),
                    plan_views(copies@) =~= copies0 + Seq::new(
                        (j - 1) as nat,
                        |t: int| plan_committed(p, keyv, ff[t + 1], crv),
                    ),
                decreases frees@.len() - j,
            {
                let mut copy = sol.clone();
                proof {
                    assert(copy.schedules@.len() == copy@.schedules.len());
                    assert(copy@.schedules.len() == p.schedules.len());
                }
                let ghost copyv = copy@;
                let mut csc = match copy.schedules.pop() {
                    Some(s) => s,
                    None => unreached(),
                };
                proof {
                    assert(csc@ == copyv.schedules[idx as int]);
                    assert(copyv.schedules[idx as int] == plan_committed(
                        p,
                        keyv,
                        ff[0],
                        crv,
                    ).schedules[idx as int]);
                    assert(csc@.table == cur.table.push((keyv, ff[0])));
                }
                let ghost pre_tbl = csc.table@;
                let dropped = csc.table.pop();
                proof {
                    assert forall|t: int|
                        0 <= t < table_view(csc.table@).len() implies table_view(csc.table@)[t]
                        == cur.table[t] by {
                        assert(csc.table@[t] == pre_tbl[t]);
                        assert(table_view(pre_tbl)[t] == cur.table.push((keyv, ff[0]))[t]);
                    }
                    assert(table_view(csc.table@) =~= cur.table);
                }
                let clsj = frees[j].clone();
                let keyj = key.clone();
                proof {
                    assert(clsj@ == ff[j as int]);
                    assert(keyj@ == keyv);
                }
                let ghost mid_tbl = csc.table@;
                csc.table.push((keyj, clsj));
                copy.schedules.push(csc);
                proof {
                    let q = plan_committed(p, keyv, ff[j as int], crv);
                    let q0 = plan_committed(p, keyv, ff[0], crv);
                    assert forall|t: int|
                        0 <= t < table_view(csc.table@).len() implies table_view(csc.table@)[t]
                        == cur.table.push((keyv, ff[j as int]))[t] by {
                        if t < mid_tbl.len() {
                            assert(csc.table@[t] == mid_tbl[t]);
                            assert(table_view(mid_tbl)[t] == cur.table[t]);
                        }
                    }
                    assert(table_view(csc.table@) =~= cur.table.push((keyv, ff[j as int])));
                    assert(csc@ == q.schedules[idx as int]);
                    assert forall|t: int|
                        0 <= t < copy@.schedules.len() implies copy@.schedules[t] == q.schedules[t]
                        by {
                        if t < idx {
                            assert(copy@.schedules[t] == copyv.schedules[t]);
                            assert(copyv.schedules[t] == q0.schedules[t]);
                            assert(q0.schedules[t] == p.schedules[t]);
                        }
                    }
                    assert(copy@.schedules =~= q.schedules);
                    assert(copy@.satisfied =~= q.satisfied);
                    assert(copy@ == q);
                }
                let ghost precopies = copies@;
                copies.push(copy);
                proof {
                    let fnew = Seq::new(j as nat, |t: int| plan_committed(p, keyv, ff[t + 1], crv));
                    let fold = Seq::new(
                        (j - 1) as nat,
                        |t: int| plan_committed(p, keyv, ff[t + 1], crv),
                    );
                    assert(plan_views(precopies) == copies0 + fold);
                    assert(fold.len() == j - 1);
                    assert(fnew.len() == j as int);
                    assert(plan_views(precopies).len() == precopies.len());
                    assert(precopies.len() == copies0.len() + (j - 1));
                    assert(copies@.len() == precopies.len() + 1);
                    assert(plan_views(copies@).len() == copies@.len());
                    assert forall|t: int|
                        0 <= t < plan_views(copies@).len() implies plan_views(copies@)[t] == (
                        copies0 + fnew)[t] by {
                        if t < precopies.len() {
                            assert(copies@[t] == precopies[t]);
                            assert(plan_views(copies@)[t] == plan_views(precopies)[t]);
                            assert((copies0 + fold)[t] == (copies0 + fnew)[t]);
                        } else {
                            assert(copies@[t] == copy);
                            assert((copies0 + fnew)[t] == fnew[t - copies0.len()]);
                            assert(fnew[j - 1] == plan_committed(p, keyv, ff[j as int], crv));
                        }
                    }
                    assert(plan_views(copies@) =~= copies0 + fnew);
                }
                j = j + 1;
            }
            proof {
                assert(plan_views(copies@) =~= copies0 + plan_step_result(
                    p,
                    ts@,
                    cr_map@,
                    cr_max,
                ).1);
            }
        },
    }
}

/// Every plan's every term assignment is finished.
pub open spec fn pop_all_finished(pop: Seq<PlanView>) -> bool {
    forall|t: int| 0 <= t < pop.len() ==> plan_all_finished(#[trigger] pop[t])
}

/// Every plan has covered every subject.
pub open spec fn pop_all_solved(pop: Seq<PlanView>) -> bool {
    forall|t: int| 0 <= t < pop.len() ==> plan_solved(#[trigger] pop[t])
}

/// Whether every plan of the population is fully finished.
pub fn all_finished(solutions: &Vec<SolutionInProgress>) -> (r: bool)
    ensures
        r == pop_all_finished(plan_views(solutions@)),
{
    let mut i: usize = 0;
    while i < solutions.len()
        invariant
            0 <= i <= solutions@.len(),
            forall|t: int| 0 <= t < i ==> plan_all_finished(#[trigger] plan_views(solutions@)[t]),
        decreases solutions@.len() - i,
    {
        proof {
            assert(plan_views(solutions@)[i as int] == solutions@[i as int]@);
        }
        if !solutions[i].finished() {
            return false;
        }
        i = i + 1;
    }
    true
}

/// Whether every plan of the population is solved.
pub fn all_solved(solutions: &Vec<SolutionInProgress>) -> (r: bool)
    ensures
        r == pop_all_solved(plan_views(solutions@)),
{
    let mut i: usize = 0;
    while i < solutions.len()
        invariant
            0 <= i <= solutions@.len(),
            forall|t: int| 0 <= t < i ==> plan_solved(#[trigger] plan_views(solutions@)[t]),
        decreases solutions@.len() - i,
    {
        proof {
            assert(plan_views(solutions@)[i as int] == solutions@[i as int]@);
        }
        if !solutions[i].solved() {
            return false;
        }
        i = i + 1;
    }
    true
}

/// What one pass does to one plan: a fully finished plan is left alone; any
/// other is advanced one engine step.
pub open spec fn pass_plan(
    p: PlanView,
    tsv: Seq<(Seq<char>, Seq<Seq<Slot>>)>,
    crm: Seq<(Seq<char>, u8)>,
    cr_max: u8,
) -> (PlanView, Seq<PlanView>) {
    if plan_all_finished(p) {
        (p, Seq::empty())
    } else {
        plan_step_result(p, tsv, crm, cr_max)
    }
}

/// The plans of the population after one pass, in place.
pub open spec fn pass_heads(
    pop: Seq<PlanView>,
    tsv: Seq<(Seq<char>, Seq<Seq<Slot>>)>,
    crm: Seq<(Seq<char>, u8)>,
    cr_max: u8,
) -> Seq<PlanView> {
    pop.map_values(|p: PlanView| pass_plan(p, tsv, crm, cr_max).0)
}

/// The clones one pass spawns, in plan order then section order.
pub open spec fn pass_tails(
    pop: Seq<PlanView>,
    tsv: Seq<(Seq<char>, Seq<Seq<Slot>>)>,
    crm: Seq<(Seq<char>, u8)>,
    cr_max: u8,
) -> Seq<PlanView>
    decreases pop.len(),
{
    if pop.len() == 0 {
        Seq::empty()
    } else {
        pass_tails(pop.drop_last(), tsv, crm, cr_max) + pass_plan(pop.last(), tsv, crm, cr_max).1
    }
}

/// Runs one pass over the population: every not fully finished plan is
/// advanced one engine step in place, and the clones spawned by all of them
/// are appended afterwards, so that a single pass never revisits a fresh
/// clone.
pub fn run_pass(
    solutions: &mut Vec<SolutionInProgress>,
    ts: &Timesheet,
    cr_map: &CreditMap,
    cr_max: u8,
)
    requires
        forall|t: int|
            0 <= t < old(solutions)@.len() ==> #[trigger] old(
                solutions,
            )@[t]@.schedules.len() >= 1,
        forall|i: int| 0 <= i < ts@.len() ==> spec_credit(cr_map@, #[trigger] ts@[i].0) is Some,
    ensures
        plan_views(final(solutions)@) == pass_heads(
            plan_views(old(solutions)@),
            ts@,
            cr_map@,
            cr_max,
        ) + pass_tails(plan_views(old(solutions)@), ts@, cr_map@, cr_max),
{
    let ghost pop0 = plan_views(old(solutions)@);
    let mut copies: Vec<SolutionInProgress> = Vec::new();
    let n = solutions.len();
    proof {
        assert(pop0.take(0) =~= Seq::<PlanView>::empty());
        assert(plan_views(copies@) =~= Seq::<PlanView>::empty());
    }
    let mut i: usize = 0;
    while i < n
        invariant
            0 <= i <= n,
            n == pop0.len(),
            solutions@.len() == n,
            forall|t: int| i <= t < n ==> #[trigger] solutions@[t]@ == pop0[t],
            forall|t: int|
                0 <= t < i ==> #[trigger] solutions@[t]@ == pass_plan(
                    pop0[t],
                    ts@,
                    cr_map@,
                    cr_max,
                ).0,
            plan_views(copies@) == pass_tails(pop0.take(i as int), ts@, cr_map@, cr_max),
            forall|t: int| 0 <= t < n ==> #[trigger] pop0[t].schedules.len() >= 1,
            forall|q: int| 0 <= q < ts@.len() ==> spec_credit(cr_map@, #[trigger] ts@[q].0) is Some,
        decreases n - i,
    {
        let fin = solutions[i].finished();
        proof {
            assert(solutions@[i as int]@ == pop0[i as int]);
        }
        if !fin {
            let ghost presols = solutions@;
            let mut sol = solutions.remove(i);
            proof {
                assert(sol@ == pop0[i as int]);
            }
            step_plan(&mut sol, ts, cr_map, cr_max, &mut copies);
            solutions.insert(i, sol);
            proof {
                assert forall|t: int| 0 <= t < n && t != i implies solutions@[t]
                    == presols[t] by {
                    if t < i {
                        assert(solutions@[t] == presols.remove(i as int).insert(
                            i as int,
                            sol,
                        )[t]);
                    }
                }
                assert(solutions@[i as int] == sol);
            }
        }
        proof {
            assert(pop0.take(i + 1).drop_last() =~= pop0.take(i as int));
            assert(pop0.take(i + 1).last() == pop0[i as int]);
            if fin {
                assert(pass_plan(pop0[i as int], ts@, cr_map@, cr_max).1 =~= Seq::<
                    PlanView,
                >::empty());
                assert(plan_views(copies@) =~= pass_tails(pop0.take(i + 1), ts@, cr_map@, cr_max));
            } else {
                assert(plan_views(copies@) =~= pass_tails(pop0.take(i + 1), ts@, cr_map@, cr_max));
            }
        }
        i = i + 1;
    }
    proof {
        assert(pop0.take(n as int) =~= pop0);
    }
    let ghost stepped = solutions@;
    let ghost precopies = copies@;
    solutions.append(&mut copies);
    proof {
        let heads = pass_heads(pop0, ts@, cr_map@, cr_max);
        let tails = pass_tails(pop0, ts@, cr_map@, cr_max);
        assert(plan_views(precopies) == tails);
        assert forall|t: int|
            0 <= t < plan_views(solutions@).len() implies plan_views(solutions@)[t] == (heads
            + tails)[t] by {
            if t < n {
                assert(solutions@[t] == stepped[t]);
                assert(stepped[t]@ == pass_plan(pop0[t], ts@, cr_map@, cr_max).0);
            } else {
                assert(solutions@[t] == precopies[t - n]);
                assert(plan_views(precopies)[t - n] == precopies[t - n]@);
            }
        }
        assert(plan_views(solutions@) =~= heads + tails);
    }
}

/// Every clone a pass spawns is well-formed, within the cap, and spans the
/// same terms.
proof fn lemma_pass_tails_wf(
    pop: Seq<PlanView>,
    tsv: Seq<(Seq<char>, Seq<Seq<Slot>>)>,
    crm: Seq<(Seq<char>, u8)>,
    cr_max: u8,
    subjects: Seq<Seq<char>>,
    nterms: int,
)
    requires
        forall|t: int|
            0 <= t < pop.len() ==> plan_wf(#[trigger] pop[t], crm, subjects) && plan_within_cap(
                pop[t],
                cr_max,
            ) && pop[t].schedules.len() == nterms,
        forall|i: int| 0 <= i < tsv.len() ==> subjects.contains(#[trigger] tsv[i].0),
        forall|i: int| 0 <= i < tsv.len() ==> spec_credit(crm, #[trigger] tsv[i].0) is Some,
    ensures
        forall|j: int|
            0 <= j < pass_tails(pop, tsv, crm, cr_max).len() ==> plan_wf(
                #[trigger] pass_tails(pop, tsv, crm, cr_max)[j],
                crm,
                subjects,
            ) && plan_within_cap(pass_tails(pop, tsv, crm, cr_max)[j], cr_max) && pass_tails(
                pop,
                tsv,
                crm,
                cr_max,
            )[j].schedules.len() == nterms,
    decreases pop.len(),
{
    if pop.len() > 0 {
        lemma_pass_tails_wf(pop.drop_last(), tsv, crm, cr_max, subjects, nterms);
        let p = pop.last();
        if !plan_all_finished(p) {
            lemma_step_preserves_wf(p, tsv, crm, cr_max, subjects);
        }
        let prefix = pass_tails(pop.drop_last(), tsv, crm, cr_max);
        let own = pass_plan(p, tsv, crm, cr_max).1;
        assert forall|j: int| 0 <= j < pass_tails(pop, tsv, crm, cr_max).len() implies plan_wf(
            #[trigger] pass_tails(pop, tsv, crm, cr_max)[j],
            crm,
            subjects,
        ) && plan_within_cap(pass_tails(pop, tsv, crm, cr_max)[j], cr_max) && pass_tails(
            pop,
            tsv,
            crm,
            cr_max,
        )[j].schedules.len() == nterms by {
            if j < prefix.len() {
                assert(pass_tails(pop, tsv, crm, cr_max)[j] == prefix[j]);
            } else {
                assert(pass_tails(pop, tsv, crm, cr_max)[j] == own[j - prefix.len()]);
            }
        }
    }
}

/// One whole pass keeps every plan of the population well-formed, within the
/// cap, and spanning the same terms, and never shrinks the population.
pub proof fn lemma_pass_preserves_wf(
    pop: Seq<PlanView>,
    tsv: Seq<(Seq<char>, Seq<Seq<Slot>>)>,
    crm: Seq<(Seq<char>, u8)>,
    cr_max: u8,
    subjects: Seq<Seq<char>>,
    nterms: int,
)
    requires
        forall|t: int|
            0 <= t < pop.len() ==> plan_wf(#[trigger] pop[t], crm, subjects) && plan_within_cap(
                pop[t],
                cr_max,
            ) && pop[t].schedules.len() == nterms,
        forall|i: int| 0 <= i < tsv.len() ==> subjects.contains(#[trigger] tsv[i].0),
        forall|i: int| 0 <= i < tsv.len() ==> spec_credit(crm, #[trigger] tsv[i].0) is Some,
    ensures
        ({
            let newpop = pass_heads(pop, tsv, crm, cr_max) + pass_tails(pop, tsv, crm, cr_max);
            newpop.len() >= pop.len() && forall|t: int|
                0 <= t < newpop.len() ==> plan_wf(#[trigger] newpop[t], crm, subjects)
                    && plan_within_cap(newpop[t], cr_max) && newpop[t].schedules.len() == nterms
        }),
{
    lemma_pass_tails_wf(pop, tsv, crm, cr_max, subjects, nterms);
    let heads = pass_heads(pop, tsv, crm, cr_max);
    let tails = pass_tails(pop, tsv, crm, cr_max);
    assert forall|t: int| 0 <= t < (heads + tails).len() implies plan_wf(
        #[trigger] (heads + tails)[t],
        crm,
        subjects,
    ) && plan_within_cap((heads + tails)[t], cr_max) && (heads + tails)[t].schedules.len()
        == nterms by {
        if t < heads.len() {
            assert((heads + tails)[t] == pass_plan(pop[t], tsv, crm, cr_max).0);
            if !plan_all_finished(pop[t]) {
                lemma_step_preserves_wf(pop[t], tsv, crm, cr_max, subjects);
            }
        } else {
            assert((heads + tails)[t] == tails[t - heads.len()]);
        }
    }
}

/// A fresh, empty term assignment.
pub open spec fn empty_sched() -> SchedView {
    SchedView { table: Seq::empty(), finished: false, cr_count: 0 }
}

/// The plan with a fresh, empty term appended.
pub open spec fn plan_extended(p: PlanView) -> PlanView {
    PlanView { schedules: p.schedules.push(empty_sched()), satisfied: p.satisfied, goal: p.goal }
}

/// Appending an empty term to a fully finished, well-formed plan keeps it
/// well-formed.
pub proof fn lemma_extend_wf(
    p: PlanView,
    crm: Seq<(Seq<char>, u8)>,
    cr_max: u8,
    subjects: Seq<Seq<char>>,
)
    requires
        plan_wf(p, crm, subjects),
        plan_within_cap(p, cr_max),
        plan_all_finished(p),
    ensures
        plan_wf(plan_extended(p), crm, subjects),
        plan_within_cap(plan_extended(p), cr_max),
        plan_extended(p).schedules.len() == p.schedules.len() + 1,
{
    let q = plan_extended(p);
    assert(sched_keys(empty_sched()) =~= Seq::<Seq<char>>::empty());
    assert(credit_sum(sched_keys(empty_sched()), crm) == 0);
    assert(sched_wf(empty_sched(), crm));
    assert(q.schedules.drop_last() =~= p.schedules);
    assert(keys_concat(q.schedules) == keys_concat(p.schedules) + sched_keys(empty_sched()));
    assert(q.satisfied =~= keys_concat(q.schedules));
    assert forall|t: int| 0 <= t < q.schedules.len() implies sched_wf(
        #[trigger] q.schedules[t],
        crm,
    ) by {
        if t < p.schedules.len() {
            assert(q.schedules[t] == p.schedules[t]);
        }
    }
}

/// Appends a fresh, empty term assignment to every plan of the population.
pub fn extend_all(solutions: &mut Vec<SolutionInProgress>)
    ensures
        plan_views(final(solutions)@) == plan_views(old(solutions)@).map_values(
            |p: PlanView| plan_extended(p),
        ),
{
    let ghost pop0 = plan_views(old(solutions)@);
    let mut i: usize = 0;
    while i < solutions.len()
        invariant
            0 <= i <= solutions@.len(),
            solutions@.len() == pop0.len(),
            forall|t: int| i <= t < pop0.len() ==> #[trigger] solutions@[t]@ == pop0[t],
            forall|t: int| 0 <= t < i ==> #[trigger] solutions@[t]@ == plan_extended(pop0[t]),
        decreases solutions@.len() - i,
    {
        let ghost presols = solutions@;
        let mut sol = solutions.remove(i);
        proof {
            assert(sol@ == pop0[i as int]);
        }
        let ghost presched = sol.schedules@;
        sol.schedules.push(
            ScheduleInProgress { table: Vec::new(), finished: false, cr_count: 0 },
        );
        proof {
            assert forall|t: int|
                0 <= t < sol@.schedules.len() implies sol@.schedules[t] == plan_extended(
                pop0[i as int],
            ).schedules[t] by {
                if t < presched.len() {
                    assert(sol.schedules@[t] == presched[t]);
                } else {
                    assert(sol@.schedules[t] == sol.schedules@[t]@);
                    assert(table_view(sol.schedules@[t].table@) =~= Seq::<
                        (Seq<char>, Seq<Slot>),
                    >::empty());
                }
            }
            assert(sol@.schedules =~= plan_extended(pop0[i as int]).schedules);
            assert(sol@ == plan_extended(pop0[i as int]));
        }
        solutions.insert(i, sol);
        proof {
            assert forall|t: int| 0 <= t < pop0.len() && t != i implies solutions@[t]
                == presols[t] by {
                if t < i {
                    assert(solutions@[t] == presols.remove(i as int).insert(i as int, sol)[t]);
                }
            }
            assert(solutions@[i as int] == sol);
        }
        i = i + 1;
    }
    proof {
        assert(plan_views(solutions@) =~= pop0.map_values(|p: PlanView| plan_extended(p)));
    }
}

/// The single-term plan that seeds the search with section `j` of timesheet
/// entry `fi`.
pub open spec fn seed_plan(
    tsv: Seq<(Seq<char>, Seq<Seq<Slot>>)>,
    fi: int,
    j: int,
    cr: u8,
    goal: u8,
) -> PlanView {
    PlanView {
        schedules: seq![
            SchedView { table: seq![(tsv[fi].0, tsv[fi].1[j])], finished: false, cr_count: cr },
        ],
        satisfied: seq![tsv[fi].0],
        goal: goal,
    }
}

/// A seed plan is well-formed as long as its one subject's weight respects
/// the cap.
pub proof fn lemma_seed_wf(
    tsv: Seq<(Seq<char>, Seq<Seq<Slot>>)>,
    fi: int,
    j: int,
    crm: Seq<(Seq<char>, u8)>,
    cr_max: u8,
    subjects: Seq<Seq<char>>,
    goal: u8,
)
    requires
        0 <= fi < tsv.len(),
        spec_credit(crm, tsv[fi].0) is Some,
        spec_credit(crm, tsv[fi].0).unwrap() <= cr_max,
        subjects.contains(tsv[fi].0),
        goal as int == subjects.len(),
    ensures
        ({
            let p = seed_plan(tsv, fi, j, spec_credit(crm, tsv[fi].0).unwrap(), goal);
            plan_wf(p, crm, subjects) && plan_within_cap(p, cr_max) && p.schedules.len() == 1
                && p.satisfied.len() == 1
        }),
{
    let cr = spec_credit(crm, tsv[fi].0).unwrap();
    let p = seed_plan(tsv, fi, j, cr, goal);
    let sc = p.schedules[0];
    assert(sched_keys(sc) =~= seq![tsv[fi].0]);
    assert(sched_keys(sc).drop_last() =~= Seq::<Seq<char>>::empty());
    assert(credit_sum(Seq::<Seq<char>>::empty(), crm) == 0);
    assert(sched_keys(sc).last() == tsv[fi].0);
    assert(credit_sum(sched_keys(sc), crm) == cr as int);
    assert(table_conflict_free(sc.table));
    assert(sched_wf(sc, crm));
    assert(p.schedules.drop_last() =~= Seq::<SchedView>::empty());
    assert(keys_concat(Seq::<SchedView>::empty()) == Seq::<Seq<char>>::empty());
    assert(p.schedules.last() == sc);
    assert(keys_concat(p.schedules) =~= p.satisfied);
}

/// Seeds an empty population: one single-term plan per section the seed
/// subject — the one with the fewest sections — offers.
pub fn seed_population(
    solutions: &mut Vec<SolutionInProgress>,
    ts: &Timesheet,
    cr_map: &CreditMap,
    goal: u8,
)
    requires
        old(solutions)@.len() == 0,
        best_first(ts@, ts@.len() as int) is Some,
        forall|i: int| 0 <= i < ts@.len() ==> spec_credit(cr_map@, #[trigger] ts@[i].0) is Some,
    ensures
        ({
            let fi = best_first(ts@, ts@.len() as int).unwrap();
            let cr = spec_credit(cr_map@, ts@[fi].0).unwrap();
            plan_views(final(solutions)@) == Seq::new(
                tsv_len_at(ts@, fi) as nat,
                |j: int| seed_plan(ts@, fi, j, cr, goal),
            )
        }),
{
    let fi = match get_first_subject(ts) {
        Some(i) => i,
        None => unreached(),
    };
    proof {
        assert(ts@[fi as int] == (ts.table@[fi as int].0@, class_views(ts.table@[fi as int].1@)));
    }
    let cr = match cr_map.credit_of(&ts.table[fi].0) {
        Some(c) => c,
        None => unreached(),
    };
    let ghost crv = spec_credit(cr_map@, ts@[fi as int].0).unwrap();
    let n = ts.table[fi].1.len();
    let mut j: usize = 0;
    while j < n
        invariant
            0 <= j <= n,
            fi < ts@.len(),
            n == ts@[fi as int].1.len(),
            ts@[fi as int] == (ts.table@[fi as int].0@, class_views(ts.table@[fi as int].1@)),
            cr == crv,
            plan_views(solutions@) == Seq::new(
                j as nat,
                |t: int| seed_plan(ts@, fi as int, t, crv, goal),
            ),
        decreases n - j,
    {
        let key1 = ts.table[fi].0.clone();
        let key2 = ts.table[fi].0.clone();
        let cls = ts.table[fi].1[j].clone();
        proof {
            assert(cls@ == ts@[fi as int].1[j as int]);
            assert(key1@ == ts@[fi as int].0 && key2@ == ts@[fi as int].0);
        }
        let mut table: Vec<(String, Class)> = Vec::new();
        table.push((key1, cls));
        let mut schedules: Vec<ScheduleInProgress> = Vec::new();
        schedules.push(ScheduleInProgress { table, finished: false, cr_count: cr });
        let mut satisfied: Vec<String> = Vec::new();
        satisfied.push(key2);
        let sol = SolutionInProgress { schedules, satisfied, goal };
        proof {
            let sp = seed_plan(ts@, fi as int, j as int, crv, goal);
            assert(sol@.schedules[0].table =~= sp.schedules[0].table);
            assert(sol@.schedules[0] == sp.schedules[0]);
            assert(sol@.schedules =~= sp.schedules);
            assert(sol@.satisfied =~= sp.satisfied);
            assert(sol@ == sp);
        }
        let ghost presols = solutions@;
        solutions.push(sol);
        proof {
            assert(plan_views(presols).len() == presols.len());
            assert(presols.len() == j as int);
            assert(solutions@.len() == j + 1);
            assert(plan_views(solutions@).len() == solutions@.len());
            assert forall|t: int|
                0 <= t < plan_views(solutions@).len() implies plan_views(solutions@)[t] == Seq::new(
                (j + 1) as nat,
                |u: int| seed_plan(ts@, fi as int, u, crv, goal),
            )[t] by {
                if t < j {
                    assert(solutions@[t] == presols[t]);
                    assert(plan_views(presols)[t] == presols[t]@);
                } else {
                    assert(solutions@[t] == sol);
                }
            }
            assert(plan_views(solutions@) =~= Seq::new(
                (j + 1) as nat,
                |u: int| seed_plan(ts@, fi as int, u, crv, goal),
            ));
        }
        j = j + 1;
    }
}

/// The section count of timesheet entry `fi`.
pub open spec fn tsv_len_at(tsv: Seq<(Seq<char>, Seq<Seq<Slot>>)>, fi: int) -> int {
    tsv[fi].1.len() as int
}

/// The codes of a timesheet's entries, in table order.
pub open spec fn ts_codes(tsv: Seq<(Seq<char>, Seq<Seq<Slot>>)>) -> Seq<Seq<char>> {
    tsv.map_values(|e: (Seq<char>, Seq<Seq<Slot>>)| e.0)
}

/// `acc` extended with each code of `keys`, in order, skipping those already
/// present.
pub open spec fn add_distinct(acc: Seq<Seq<char>>, keys: Seq<Seq<char>>) -> Seq<Seq<char>>
    decreases keys.len(),
{
    if keys.len() == 0 {
        acc
    } else if acc.contains(keys.first()) {
        add_distinct(acc, keys.drop_first())
    } else {
        add_distinct(acc.push(keys.first()), keys.drop_first())
    }
}

/// The distinct subject codes appearing in either timesheet: those of the
/// first, then the new ones of the second, each in table order.
pub open spec fn distinct_codes(
    t1: Seq<(Seq<char>, Seq<Seq<Slot>>)>,
    t2: Seq<(Seq<char>, Seq<Seq<Slot>>)>,
) -> Seq<Seq<char>> {
    add_distinct(add_distinct(Seq::empty(), ts_codes(t1)), ts_codes(t2))
}

/// `add_distinct` holds exactly the codes of its two arguments, and keeps
/// the accumulator duplicate-free.
pub proof fn lemma_add_distinct(acc: Seq<Seq<char>>, keys: Seq<Seq<char>>)
    requires
        acc.no_duplicates(),
    ensures
        add_distinct(acc, keys).no_duplicates(),
        forall|x: Seq<char>|
            add_distinct(acc, keys).contains(x) <==> acc.contains(x) || keys.contains(x),
    decreases keys.len(),
{
    if keys.len() > 0 {
        let k = keys.first();
        if acc.contains(k) {
            lemma_add_distinct(acc, keys.drop_first());
        } else {
            assert forall|a: int, b: int|
                0 <= a < acc.push(k).len() && 0 <= b < acc.push(k).len() && a != b implies acc.push(
                k,
            )[a] != acc.push(k)[b] by {
                if a < acc.len() && b < acc.len() {
                } else if a == acc.len() {
                    assert(acc.push(k)[b] == acc[b]);
                } else {
                    assert(acc.push(k)[a] == acc[a]);
                }
            }
            lemma_add_distinct(acc.push(k), keys.drop_first());
            assert forall|x: Seq<char>| #[trigger] acc.push(k).contains(x) implies acc.contains(x)
                || x == k by {
                let w = choose|w: int| 0 <= w < acc.push(k).len() && acc.push(k)[w] == x;
                if w < acc.len() {
                    assert(acc[w] == x);
                }
            }
            assert forall|x: Seq<char>| #[trigger] acc.contains(x) implies acc.push(k).contains(
                x,
            ) by {
                let w = choose|w: int| 0 <= w < acc.len() && acc[w] == x;
                assert(acc.push(k)[w] == x);
            }
            assert(acc.push(k)[acc.len() as int] == k);
            assert(acc.push(k).contains(k));
        }
        assert forall|x: Seq<char>| #[trigger]
            keys.contains(x) implies x == k || keys.drop_first().contains(x) by {
            let w = choose|w: int| 0 <= w < keys.len() && keys[w] == x;
            if w > 0 {
                assert(keys.drop_first()[w - 1] == x);
            }
        }
        assert forall|x: Seq<char>| #[trigger]
            keys.drop_first().contains(x) implies keys.contains(x) by {
            let w = choose|w: int| 0 <= w < keys.drop_first().len() && keys.drop_first()[w] == x;
            assert(keys[w + 1] == x);
        }
        assert(keys[0] == k);
        assert(keys.contains(k));
        assert forall|x: Seq<char>|
            add_distinct(acc, keys).contains(x) <==> acc.contains(x) || keys.contains(x) by {
            if acc.contains(k) {
                assert(add_distinct(acc, keys) == add_distinct(acc, keys.drop_first()));
                if keys.contains(x) && x != k {
                    assert(keys.drop_first().contains(x));
                }
            } else {
                assert(add_distinct(acc, keys) == add_distinct(acc.push(k), keys.drop_first()));
                if keys.contains(x) && x != k {
                    assert(keys.drop_first().contains(x));
                }
                if add_distinct(acc, keys).contains(x) && !keys.drop_first().contains(x) {
                    assert(acc.push(k).contains(x));
                }
            }
        }
    }
}

/// Pushes onto `acc` each subject code of `ts` not already present, in table
/// order.
pub fn add_codes(acc: &mut Vec<String>, ts: &Timesheet)
    ensures
        str_views(final(acc)@) == add_distinct(str_views(old(acc)@), ts_codes(ts@)),
{
    let ghost whole = add_distinct(str_views(old(acc)@), ts_codes(ts@));
    proof {
        assert(ts_codes(ts@).skip(0) =~= ts_codes(ts@));
    }
    let mut i: usize = 0;
    while i < ts.table.len()
        invariant
            0 <= i <= ts@.len(),
            add_distinct(str_views(acc@), ts_codes(ts@).skip(i as int)) == whole,
        decreases ts@.len() - i,
    {
        proof {
            assert(ts_codes(ts@).skip(i as int).first() == ts_codes(ts@)[i as int]);
            assert(ts_codes(ts@)[i as int] == ts@[i as int].0);
            assert(ts@[i as int].0 == ts.table@[i as int].0@);
            assert(ts_codes(ts@).skip(i as int).drop_first() =~= ts_codes(ts@).skip(i + 1));
        }
        let present = contains_string(acc, &ts.table[i].0);
        if !present {
            let key = ts.table[i].0.clone();
            let ghost preacc = acc@;
            acc.push(key);
            proof {
                assert(str_views(acc@) =~= str_views(preacc).push(ts@[i as int].0));
            }
        }
        i = i + 1;
    }
    proof {
        assert(ts_codes(ts@).skip(ts@.len() as int) =~= Seq::<Seq<char>>::empty());
    }
}

/// The distinct subject codes appearing in either timesheet, in a fixed
/// order: the goal of the search is to cover every one of them.
pub fn collect_subjects(ts1: &Timesheet, ts2: &Timesheet) -> (r: Vec<String>)
    ensures
        str_views(r@) == distinct_codes(ts1@, ts2@),
        str_views(r@).no_duplicates(),
        forall|x: Seq<char>|
            str_views(r@).contains(x) <==> ts_codes(ts1@).contains(x) || ts_codes(
                ts2@,
            ).contains(x),
{
    let mut acc: Vec<String> = Vec::new();
    proof {
        assert(str_views(acc@) =~= Seq::<Seq<char>>::empty());
    }
    add_codes(&mut acc, ts1);
    add_codes(&mut acc, ts2);
    proof {
        lemma_add_distinct(Seq::empty(), ts_codes(ts1@));
        lemma_add_distinct(add_distinct(Seq::empty(), ts_codes(ts1@)), ts_codes(ts2@));
    }
    acc
}

/// Covering as many distinct catalog subjects as the catalog holds covers
/// every one of them: the covered set is the whole catalog.
pub proof fn lemma_full_cover_is_catalog(keys: Seq<Seq<char>>, subjects: Seq<Seq<char>>)
    requires
        keys.no_duplicates(),
        subjects.no_duplicates(),
        keys.len() == subjects.len(),
        forall|k: int| 0 <= k < keys.len() ==> subjects.contains(#[trigger] keys[k]),
    ensures
        keys.to_set() == subjects.to_set(),
{
    keys.unique_seq_to_set();
    subjects.unique_seq_to_set();
    assert forall|x: Seq<char>| keys.to_set().contains(x) implies subjects.to_set().contains(
        x,
    ) by {
        assert(keys.contains(x));
        let w = choose|w: int| 0 <= w < keys.len() && keys[w] == x;
        assert(subjects.contains(keys[w]));
    }
    vstd::set_lib::lemma_subset_equality(keys.to_set(), subjects.to_set());
}

/// The plans an empty population is seeded with: one single-term plan per
/// section of the seed subject.
pub open spec fn seed_views(
    tsv: Seq<(Seq<char>, Seq<Seq<Slot>>)>,
    crm: Seq<(Seq<char>, u8)>,
    goal: u8,
) -> Seq<PlanView> {
    let fi = best_first(tsv, tsv.len() as int).unwrap();
    let cr = spec_credit(crm, tsv[fi].0).unwrap();
    Seq::new(tsv[fi].1.len() as nat, |j: int| seed_plan(tsv, fi, j, cr, goal))
}

/// The population with a fresh, empty term appended to every plan.
pub open spec fn extended_views(pop: Seq<PlanView>) -> Seq<PlanView> {
    pop.map_values(|p: PlanView| plan_extended(p))
}

/// What running passes to completion yields: passes transform the
/// population, each costing one unit of fuel, until every plan's every term
/// is finished; `None` when the fuel runs out first, else the population
/// with the fuel left over.
pub open spec fn spec_passes(
    pop: Seq<PlanView>,
    tsv: Seq<(Seq<char>, Seq<Seq<Slot>>)>,
    crm: Seq<(Seq<char>, u8)>,
    cr_max: u8,
    fuel: u64,
) -> Option<(Seq<PlanView>, u64)>
    decreases fuel,
{
    if pop_all_finished(pop) {
        Some((pop, fuel))
    } else if fuel == 0 {
        None
    } else {
        spec_passes(
            pass_heads(pop, tsv, crm, cr_max) + pass_tails(pop, tsv, crm, cr_max),
            tsv,
            crm,
            cr_max,
            (fuel - 1) as u64,
        )
    }
}

/// `spec_passes` hands back at most the fuel it was given.
pub proof fn lemma_spec_passes_fuel(
    pop: Seq<PlanView>,
    tsv: Seq<(Seq<char>, Seq<Seq<Slot>>)>,
    crm: Seq<(Seq<char>, u8)>,
    cr_max: u8,
    fuel: u64,
)
    ensures
        spec_passes(pop, tsv, crm, cr_max, fuel) matches Some((p2, f2)) ==> f2 <= fuel,
    decreases fuel,
{
    if !pop_all_finished(pop) && fuel > 0 {
        lemma_spec_passes_fuel(
            pass_heads(pop, tsv, crm, cr_max) + pass_tails(pop, tsv, crm, cr_max),
            tsv,
            crm,
            cr_max,
            (fuel - 1) as u64,
        );
    }
}

/// What the whole search yields: term by term, alternating the two
/// timesheets — `even` says which comes next — the population is seeded or
/// extended and its term driven to completion, until every plan has covered
/// every subject. Each term and each pass costs one unit of fuel; `None`
/// when the fuel runs out first: no feasible plan found within the budget.
pub open spec fn spec_search(
    pop: Seq<PlanView>,
    ts1v: Seq<(Seq<char>, Seq<Seq<Slot>>)>,
    ts2v: Seq<(Seq<char>, Seq<Seq<Slot>>)>,
    crm: Seq<(Seq<char>, u8)>,
    cr_max: u8,
    goal: u8,
    even: bool,
    fuel: u64,
) -> Option<Seq<PlanView>>
    decreases fuel,
    via spec_search_decreases
{
    if pop.len() > 0 && pop_all_solved(pop) {
        Some(pop)
    } else if fuel == 0 {
        None
    } else {
        let tsv = if even {
            ts1v
        } else {
            ts2v
        };
        let pop1 = if pop.len() == 0 {
            seed_views(tsv, crm, goal)
        } else {
            extended_views(pop)
        };
        match spec_passes(pop1, tsv, crm, cr_max, (fuel - 1) as u64) {
            Option::None => None,
            Option::Some((pop2, f2)) => spec_search(
                pop2,
                ts1v,
                ts2v,
                crm,
                cr_max,
                goal,
                !even,
                f2,
            ),
        }
    }
}

#[via_fn]
proof fn spec_search_decreases(
    pop: Seq<PlanView>,
    ts1v: Seq<(Seq<char>, Seq<Seq<Slot>>)>,
    ts2v: Seq<(Seq<char>, Seq<Seq<Slot>>)>,
    crm: Seq<(Seq<char>, u8)>,
    cr_max: u8,
    goal: u8,
    even: bool,
    fuel: u64,
) {
    if !(pop.len() > 0 && pop_all_solved(pop)) && fuel > 0 {
        let tsv = if even {
            ts1v
        } else {
            ts2v
        };
        let pop1 = if pop.len() == 0 {
            seed_views(tsv, crm, goal)
        } else {
            extended_views(pop)
        };
        lemma_spec_passes_fuel(pop1, tsv, crm, cr_max, (fuel - 1) as u64);
    }
}

/// Drives one term to completion: an empty population is seeded from the
/// timesheet's most constrained subject, any other gets a fresh term
/// appended to every plan; then passes run until every plan's every term is
/// finished. Each pass costs one unit of `fuel`; the call reports `false`,
/// leaving the search unfinished, when the fuel runs out first.
pub fn solve_term(
    ts: &Timesheet,
    solutions: &mut Vec<SolutionInProgress>,
    subjects: &Vec<String>,
    cr_map: &CreditMap,
    cr_max: u8,
    fuel: &mut u64,
) -> (complete: bool)
    requires
        forall|i: int| 0 <= i < ts@.len() ==> spec_credit(cr_map@, #[trigger] ts@[i].0) is Some,
        forall|i: int| 0 <= i < ts@.len() ==> str_views(subjects@).contains(#[trigger] ts@[i].0),
        subjects@.len() <= 255,
        old(solutions)@.len() == 0 ==> best_first(ts@, ts@.len() as int) is Some && spec_credit(
            cr_map@,
            ts@[best_first(ts@, ts@.len() as int).unwrap()].0,
        ).unwrap() <= cr_max,
        forall|t: int|
            0 <= t < old(solutions)@.len() ==> plan_wf(
                (#[trigger] old(solutions)@[t])@,
                cr_map@,
                str_views(subjects@),
            ) && plan_within_cap(old(solutions)@[t]@, cr_max)
                && old(solutions)@[t]@.schedules.len() == old(solutions)@[0]@.schedules.len()
                && plan_all_finished(old(solutions)@[t]@),
    ensures
        *final(fuel) <= *old(fuel),
        complete ==> final(solutions)@.len() >= 1 && (forall|t: int|
            0 <= t < final(solutions)@.len() ==> plan_wf(
                (#[trigger] final(solutions)@[t])@,
                cr_map@,
                str_views(subjects@),
            ) && plan_within_cap(final(solutions)@[t]@, cr_max)
                && final(solutions)@[t]@.schedules.len() == final(solutions)@[0]@.schedules.len()
                && plan_all_finished(final(solutions)@[t]@)),
        ({
            let pop1 = if old(solutions)@.len() == 0 {
                seed_views(ts@, cr_map@, subjects@.len() as u8)
            } else {
                extended_views(plan_views(old(solutions)@))
            };
            match spec_passes(pop1, ts@, cr_map@, cr_max, *old(fuel)) {
                Option::None => !complete && *final(fuel) == 0,
                Option::Some((pop2, f2)) => complete && plan_views(final(solutions)@) == pop2
                    && *final(fuel) == f2,
            }
        }),
{
    let ghost subjv = str_views(subjects@);
    let ghost pop1 = if old(solutions)@.len() == 0 {
        seed_views(ts@, cr_map@, subjects@.len() as u8)
    } else {
        extended_views(plan_views(old(solutions)@))
    };
    if solutions.is_empty() {
        let goal = subjects.len() as u8;
        seed_population(solutions, ts, cr_map, goal);
        proof {
            let fi = best_first(ts@, ts@.len() as int).unwrap();
            let cr = spec_credit(cr_map@, ts@[fi].0).unwrap();
            crate::selector::lemma_best_first_bounds(ts@, ts@.len() as int);
            assert(subjv.contains(ts@[fi].0));
            assert forall|t: int|
                0 <= t < plan_views(solutions@).len() implies plan_wf(
                #[trigger] plan_views(solutions@)[t],
                cr_map@,
                subjv,
            ) && plan_within_cap(plan_views(solutions@)[t], cr_max) && plan_views(
                solutions@,
            )[t].schedules.len() == 1 by {
                lemma_seed_wf(ts@, fi, t, cr_map@, cr_max, subjv, goal);
                assert(plan_views(solutions@)[t] == seed_plan(ts@, fi, t, cr, goal));
            }
            assert(solutions@.len() >= 1);
            assert(plan_views(solutions@) =~= pop1);
        }
    } else {
        let ghost pop0 = plan_views(solutions@);
        extend_all(solutions);
        proof {
            assert forall|t: int|
                0 <= t < plan_views(solutions@).len() implies plan_wf(
                #[trigger] plan_views(solutions@)[t],
                cr_map@,
                subjv,
            ) && plan_within_cap(plan_views(solutions@)[t], cr_max) && plan_views(
                solutions@,
            )[t].schedules.len() == pop0[0].schedules.len() + 1 by {
                assert(pop0[t] == old(solutions)@[t]@);
                lemma_extend_wf(pop0[t], cr_map@, cr_max, subjv);
                assert(plan_views(solutions@)[t] == plan_extended(pop0[t]));
            }
            assert(plan_views(solutions@) =~= pop1);
        }
    }
    let ghost nterms = plan_views(solutions@)[0].schedules.len();
    proof {
        assert forall|t: int| 0 <= t < solutions@.len() implies plan_wf(
            (#[trigger] solutions@[t])@,
            cr_map@,
            subjv,
        ) && plan_within_cap(solutions@[t]@, cr_max) && solutions@[t]@.schedules.len()
            == nterms by {
            assert(plan_views(solutions@)[t] == solutions@[t]@);
            assert(plan_views(solutions@)[0] == solutions@[0]@);
        }
    }
    loop
        invariant
            solutions@.len() >= 1,
            forall|t: int|
                0 <= t < solutions@.len() ==> plan_wf(
                    (#[trigger] solutions@[t])@,
                    cr_map@,
                    subjv,
                ) && plan_within_cap(solutions@[t]@, cr_max) && solutions@[t]@.schedules.len()
                    == nterms,
            nterms >= 1,
            subjv == str_views(subjects@),
            forall|i: int| 0 <= i < ts@.len() ==> spec_credit(cr_map@, #[trigger] ts@[i].0) is Some,
            forall|i: int| 0 <= i < ts@.len() ==> subjv.contains(#[trigger] ts@[i].0),
            *fuel <= *old(fuel),
            pop1 == (if old(solutions)@.len() == 0 {
                seed_views(ts@, cr_map@, subjects@.len() as u8)
            } else {
                extended_views(plan_views(old(solutions)@))
            }),
            spec_passes(plan_views(solutions@), ts@, cr_map@, cr_max, *fuel) == spec_passes(
                pop1,
                ts@,
                cr_map@,
                cr_max,
                *old(fuel),
            ),
        ensures
            solutions@.len() >= 1,
            pop_all_finished(plan_views(solutions@)),
            forall|t: int|
                0 <= t < solutions@.len() ==> plan_wf(
                    (#[trigger] solutions@[t])@,
                    cr_map@,
                    subjv,
                ) && plan_within_cap(solutions@[t]@, cr_max) && solutions@[t]@.schedules.len()
                    == nterms,
            *fuel <= *old(fuel),
            spec_passes(pop1, ts@, cr_map@, cr_max, *old(fuel)) == Some(
                (plan_views(solutions@), *fuel),
            ),
        decreases *fuel,
    {
        if all_finished(solutions) {
            proof {
                assert forall|t: int|
                    0 <= t < solutions@.len() implies plan_all_finished(
                    #[trigger] plan_views(solutions@)[t],
                ) by {
                    assert(plan_views(solutions@)[t] == solutions@[t]@);
                }
            }
            break;
        }
        if *fuel == 0 {
            proof {
                assert(spec_passes(plan_views(solutions@), ts@, cr_map@, cr_max, 0) is None);
            }
            return false;
        }
        *fuel = *fuel - 1;
        let ghost popb = plan_views(solutions@);
        let ghost fuelb = *fuel;
        proof {
            assert forall|t: int|
                0 <= t < solutions@.len() implies (#[trigger] solutions@[t])@.schedules.len()
                >= 1 by {
                assert(plan_wf(solutions@[t]@, cr_map@, subjv));
            }
            assert forall|t: int| 0 <= t < popb.len() implies plan_wf(
                #[trigger] popb[t],
                cr_map@,
                subjv,
            ) && plan_within_cap(popb[t], cr_max) && popb[t].schedules.len() == nterms by {
                assert(popb[t] == solutions@[t]@);
            }
        }
        run_pass(solutions, ts, cr_map, cr_max);
        proof {
            lemma_pass_preserves_wf(popb, ts@, cr_map@, cr_max, subjv, nterms as int);
            let newpop = pass_heads(popb, ts@, cr_map@, cr_max) + pass_tails(
                popb,
                ts@,
                cr_map@,
                cr_max,
            );
            assert(plan_views(solutions@) == newpop);
            assert forall|t: int| 0 <= t < solutions@.len() implies plan_wf(
                (#[trigger] solutions@[t])@,
                cr_map@,
                subjv,
            ) && plan_within_cap(solutions@[t]@, cr_max) && solutions@[t]@.schedules.len()
                == nterms by {
                assert(solutions@[t]@ == newpop[t]);
            }
            assert(solutions@.len() == newpop.len());
            assert(spec_passes(popb, ts@, cr_map@, cr_max, (fuelb + 1) as u64) == spec_passes(
                newpop,
                ts@,
                cr_map@,
                cr_max,
                fuelb,
            ));
            assert(plan_views(solutions@) == newpop);
        }
    }
    proof {
        assert forall|t: int| 0 <= t < solutions@.len() implies plan_all_finished(
            (#[trigger] solutions@[t])@,
        ) by {
            assert(plan_views(solutions@)[t] == solutions@[t]@);
        }
    }
    true
}

/// One finished term of a finished plan: the chosen section per subject and
/// the term's credit total.
#[derive(Debug)]
pub struct Schedule {
    pub table: Vec<(String, Class)>,
    pub cr_count: u8,
}

impl View for Schedule {
    type V = SchedView;

    open spec fn view(&self) -> SchedView {
        SchedView { table: table_view(self.table@), finished: true, cr_count: self.cr_count }
    }
}

/// One finished plan: a finished term assignment per term, in term order.
#[derive(Debug)]
pub struct Solution {
    pub schedules: Vec<Schedule>,
}

impl View for Solution {
    type V = Seq<SchedView>;

    open spec fn view(&self) -> Seq<SchedView> {
        self.schedules@.map_values(|s: Schedule| s@)
    }
}

/// Freezes a fully finished plan into a `Solution` carrying the same terms.
pub fn to_solution(sol: &SolutionInProgress) -> (r: Solution)
    requires
        plan_all_finished(sol@),
    ensures
        r@ == sol@.schedules,
{
    let mut schedules: Vec<Schedule> = Vec::new();
    let mut t: usize = 0;
    while t < sol.schedules.len()
        invariant
            0 <= t <= sol@.schedules.len(),
            sol.schedules@.len() == sol@.schedules.len(),
            plan_all_finished(sol@),
            schedules@.len() == t,
            forall|u: int| 0 <= u < t ==> #[trigger] schedules@[u]@ == sol@.schedules[u],
        decreases sol@.schedules.len() - t,
    {
        let sc = sol.schedules[t].clone();
        proof {
            assert(sc@ == sol.schedules@[t as int]@);
            assert(sol@.schedules[t as int] == sol.schedules@[t as int]@);
            assert(sol@.schedules[t as int].finished);
        }
        schedules.push(Schedule { table: sc.table, cr_count: sc.cr_count });
        t = t + 1;
    }
    let r = Solution { schedules };
    proof {
        assert(r@ =~= sol@.schedules);
    }
    r
}

/// Searches for complete, conflict-free, credit-bounded enrollment plans:
/// term by term, alternating the two timesheets, every plan is grown by the
/// most constrained subject first, forking on every further collision-free
/// section, until every plan covers every subject of either timesheet.
///
/// `max_steps` bounds the engine passes spent in all; when it runs out
/// before every plan is complete — in particular on a catalog some subject
/// of which can never be scheduled — the search reports `None`: no feasible
/// plan found within the budget.
///
/// On success, every returned plan spans the same terms; within each, no two
/// chosen sections collide, every term's credit total is the weight sum of
/// its subjects and stays within `cr_max`, and the plan covers, once each,
/// exactly as many subjects as appear in either timesheet, each of them from
/// that catalog.
pub fn solve_all(
    ts1: &Timesheet,
    ts2: &Timesheet,
    cr_map: &CreditMap,
    cr_max: u8,
    max_steps: u64,
) -> (r: Option<Vec<Solution>>)
    requires
        forall|i: int| 0 <= i < ts1@.len() ==> spec_credit(cr_map@, #[trigger] ts1@[i].0) is Some,
        forall|i: int| 0 <= i < ts2@.len() ==> spec_credit(cr_map@, #[trigger] ts2@[i].0) is Some,
        best_first(ts1@, ts1@.len() as int) is Some,
        spec_credit(
            cr_map@,
            ts1@[best_first(ts1@, ts1@.len() as int).unwrap()].0,
        ).unwrap() <= cr_max,
        distinct_codes(ts1@, ts2@).len() <= 255,
    ensures
        r matches Some(sols) ==> ({
            let subjects = distinct_codes(ts1@, ts2@);
            sols@.len() >= 1 && (forall|si: int|
                0 <= si < sols@.len() ==> ({
                    let sv = (#[trigger] sols@[si])@;
                    sv.len() >= 1 && sv.len() == sols@[0]@.len() && (forall|t: int|
                        0 <= t < sv.len() ==> sched_wf(#[trigger] sv[t], cr_map@)
                            && sv[t].cr_count <= cr_max && sv[t].finished) && keys_concat(
                        sv,
                    ).no_duplicates() && keys_concat(sv).len() == subjects.len() && (forall|k: int|
                        0 <= k < keys_concat(sv).len() ==> subjects.contains(
                            #[trigger] keys_concat(sv)[k],
                        )) && keys_concat(sv).to_set() == subjects.to_set()
                }))
        }),
        ({
            let full = spec_search(
                Seq::empty(),
                ts1@,
                ts2@,
                cr_map@,
                cr_max,
                distinct_codes(ts1@, ts2@).len() as u8,
                true,
                max_steps,
            );
            match r {
                Option::None => full is None,
                Option::Some(sols) => full matches Some(pop) && sols@.len() == pop.len() && (
                forall|i: int| 0 <= i < pop.len() ==> (#[trigger] sols@[i])@ == pop[i].schedules),
            }
        }),
{
    let subjects = collect_subjects(ts1, ts2);
    let ghost subjv = str_views(subjects@);
    proof {
        assert(subjects@.len() == subjv.len());
        assert forall|i: int| 0 <= i < ts1@.len() implies subjv.contains(#[trigger] ts1@[i].0) by {
            assert(ts_codes(ts1@)[i] == ts1@[i].0);
            assert(ts_codes(ts1@).contains(ts1@[i].0));
        }
        assert forall|i: int| 0 <= i < ts2@.len() implies subjv.contains(#[trigger] ts2@[i].0) by {
            assert(ts_codes(ts2@)[i] == ts2@[i].0);
            assert(ts_codes(ts2@).contains(ts2@[i].0));
        }
    }
    let mut solutions: Vec<SolutionInProgress> = Vec::new();
    let mut even_term: bool = true;
    let mut fuel: u64 = max_steps;
    let ghost goalc = (distinct_codes(ts1@, ts2@).len() as u8);
    let ghost full = spec_search(Seq::empty(), ts1@, ts2@, cr_map@, cr_max, goalc, true, max_steps);
    proof {
        assert(subjects@.len() == subjv.len());
        assert(plan_views(solutions@) =~= Seq::<PlanView>::empty());
    }
    loop
        invariant
            subjv == str_views(subjects@),
            subjv == distinct_codes(ts1@, ts2@),
            subjects@.len() <= 255,
            goalc == subjects@.len() as u8,
            full == spec_search(Seq::empty(), ts1@, ts2@, cr_map@, cr_max, goalc, true, max_steps),
            spec_search(
                plan_views(solutions@),
                ts1@,
                ts2@,
                cr_map@,
                cr_max,
                goalc,
                even_term,
                fuel,
            ) == full,
            forall|i: int|
                0 <= i < ts1@.len() ==> spec_credit(cr_map@, #[trigger] ts1@[i].0) is Some,
            forall|i: int|
                0 <= i < ts2@.len() ==> spec_credit(cr_map@, #[trigger] ts2@[i].0) is Some,
            forall|i: int| 0 <= i < ts1@.len() ==> subjv.contains(#[trigger] ts1@[i].0),
            forall|i: int| 0 <= i < ts2@.len() ==> subjv.contains(#[trigger] ts2@[i].0),
            best_first(ts1@, ts1@.len() as int) is Some,
            spec_credit(
                cr_map@,
                ts1@[best_first(ts1@, ts1@.len() as int).unwrap()].0,
            ).unwrap() <= cr_max,
            solutions@.len() == 0 ==> even_term,
            forall|t: int|
                0 <= t < solutions@.len() ==> plan_wf(
                    (#[trigger] solutions@[t])@,
                    cr_map@,
                    subjv,
                ) && plan_within_cap(solutions@[t]@, cr_max) && solutions@[t]@.schedules.len()
                    == solutions@[0]@.schedules.len() && plan_all_finished(solutions@[t]@),
        ensures
            solutions@.len() >= 1,
            pop_all_solved(plan_views(solutions@)),
            full == Some(plan_views(solutions@)),
            forall|t: int|
                0 <= t < solutions@.len() ==> plan_wf(
                    (#[trigger] solutions@[t])@,
                    cr_map@,
                    subjv,
                ) && plan_within_cap(solutions@[t]@, cr_max) && solutions@[t]@.schedules.len()
                    == solutions@[0]@.schedules.len() && plan_all_finished(solutions@[t]@),
        decreases fuel,
    {
        let is_empty = solutions.is_empty();
        if !is_empty && all_solved(&solutions) {
            proof {
                assert forall|t: int| 0 <= t < solutions@.len() implies plan_solved(
                    #[trigger] plan_views(solutions@)[t],
                ) by {
                    assert(plan_views(solutions@)[t] == solutions@[t]@);
                }
                assert(plan_views(solutions@).len() > 0);
                assert(spec_search(
                    plan_views(solutions@),
                    ts1@,
                    ts2@,
                    cr_map@,
                    cr_max,
                    goalc,
                    even_term,
                    fuel,
                ) == Some(plan_views(solutions@)));
            }
            break;
        }
        if fuel == 0 {
            proof {
                assert(!(plan_views(solutions@).len() > 0 && pop_all_solved(
                    plan_views(solutions@),
                )));
                assert(spec_search(
                    plan_views(solutions@),
                    ts1@,
                    ts2@,
                    cr_map@,
                    cr_max,
                    goalc,
                    even_term,
                    0,
                ) is None);
            }
            return None;
        }
        let ghost prevpop = plan_views(solutions@);
        let ghost prevfuel = fuel;
        proof {
            assert(!(prevpop.len() > 0 && pop_all_solved(prevpop)));
        }
        fuel = fuel - 1;
        let complete: bool;
        if even_term {
            complete = solve_term(ts1, &mut solutions, &subjects, cr_map, cr_max, &mut fuel);
            proof {
                let p1 = if prevpop.len() == 0 {
                    seed_views(ts1@, cr_map@, subjects@.len() as u8)
                } else {
                    extended_views(prevpop)
                };
                match spec_passes(p1, ts1@, cr_map@, cr_max, (prevfuel - 1) as u64) {
                    Option::None => {
                        assert(!complete);
                        assert(spec_search(prevpop, ts1@, ts2@, cr_map@, cr_max, goalc, even_term,
                        prevfuel) is None);
                    },
                    Option::Some((pop2, f2)) => {
                        assert(complete && plan_views(solutions@) == pop2 && fuel == f2);
                        assert(spec_search(prevpop, ts1@, ts2@, cr_map@, cr_max, goalc, even_term,
                        prevfuel) == spec_search(pop2, ts1@, ts2@, cr_map@, cr_max, goalc,
                        !even_term, f2));
                    },
                }
            }
        } else {
            complete = solve_term(ts2, &mut solutions, &subjects, cr_map, cr_max, &mut fuel);
            proof {
                let p1 = if prevpop.len() == 0 {
                    seed_views(ts2@, cr_map@, subjects@.len() as u8)
                } else {
                    extended_views(prevpop)
                };
                match spec_passes(p1, ts2@, cr_map@, cr_max, (prevfuel - 1) as u64) {
                    Option::None => {
                        assert(!complete);
                        assert(spec_search(prevpop, ts1@, ts2@, cr_map@, cr_max, goalc, even_term,
                        prevfuel) is None);
                    },
                    Option::Some((pop2, f2)) => {
                        assert(complete && plan_views(solutions@) == pop2 && fuel == f2);
                        assert(spec_search(prevpop, ts1@, ts2@, cr_map@, cr_max, goalc, even_term,
                        prevfuel) == spec_search(pop2, ts1@, ts2@, cr_map@, cr_max, goalc,
                        !even_term, f2));
                    },
                }
            }
        }
        if !complete {
            proof {
                assert(full is None);
            }
            return None;
        }
        even_term = !even_term;
    }
    let mut out: Vec<Solution> = Vec::new();
    let mut i: usize = 0;
    while i < solutions.len()
        invariant
            0 <= i <= solutions@.len(),
            out@.len() == i,
            forall|t: int|
                0 <= t < solutions@.len() ==> plan_wf(
                    (#[trigger] solutions@[t])@,
                    cr_map@,
                    subjv,
                ) && plan_within_cap(solutions@[t]@, cr_max) && solutions@[t]@.schedules.len()
                    == solutions@[0]@.schedules.len() && plan_all_finished(solutions@[t]@),
            pop_all_solved(plan_views(solutions@)),
            forall|u: int| 0 <= u < i ==> #[trigger] out@[u]@ == solutions@[u]@.schedules,
        decreases solutions@.len() - i,
    {
        let s = to_solution(&solutions[i]);
        out.push(s);
        i = i + 1;
    }
    proof {
        assert(out@.len() == solutions@.len());
        assert(out@.len() >= 1);
        assert forall|si: int| 0 <= si < out@.len() implies ({
            let sv = (#[trigger] out@[si])@;
            sv.len() >= 1 && sv.len() == out@[0]@.len() && (forall|t: int|
                0 <= t < sv.len() ==> sched_wf(#[trigger] sv[t], cr_map@) && sv[t].cr_count
                    <= cr_max && sv[t].finished) && keys_concat(sv).no_duplicates() && keys_concat(
                sv,
            ).len() == subjv.len() && (forall|k: int|
                0 <= k < keys_concat(sv).len() ==> subjv.contains(#[trigger] keys_concat(sv)[k]))
                && keys_concat(sv).to_set() == subjv.to_set()
        }) by {
            let p = solutions@[si]@;
            assert(plan_views(solutions@)[si] == p);
            assert(plan_solved(p));
            assert(out@[si]@ == p.schedules);
            assert(out@[0]@ == solutions@[0]@.schedules);
            assert(keys_concat(p.schedules) == p.satisfied);
            assert forall|t: int| 0 <= t < p.schedules.len() implies #[trigger] p.schedules[t].finished
                && p.schedules[t].cr_count <= cr_max by {
                assert(plan_all_finished(p));
                assert(plan_within_cap(p, cr_max));
            }
            lemma_add_distinct(Seq::empty(), ts_codes(ts1@));
            lemma_add_distinct(add_distinct(Seq::empty(), ts_codes(ts1@)), ts_codes(ts2@));
            lemma_full_cover_is_catalog(p.satisfied, subjv);
        }
        assert forall|i: int|
            0 <= i < out@.len() implies (#[trigger] out@[i])@ == plan_views(
            solutions@,
        )[i].schedules by {
            assert(plan_views(solutions@)[i] == solutions@[i]@);
        }
    }
    Some(out)
}

} // verus!
