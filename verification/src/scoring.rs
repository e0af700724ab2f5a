//! Scoring support: the occupancy point cloud of a term assignment — one
//! point per occupied whole hour per weekday — and the selection of the
//! top-ranked plans once every plan carries a score.

use vstd::prelude::*;
use crate::classes::Class;
use crate::conflict::table_view;
use crate::slots::Slot;

verus! {

/// The points `(weekday, h)` for every whole hour `h` the slot occupies:
/// `h` runs from the start hour up to, excluding, the finish hour.
pub open spec fn slot_points(s: Slot) -> Seq<(u8, u16)> {
    Seq::new(slot_hours(s) as nat, |i: int| (s.weekday, (s.start / 100 + i) as u16))
}

/// How many whole hours the slot occupies.
pub open spec fn slot_hours(s: Slot) -> int {
    if s.start / 100 <= s.finish / 100 {
        s.finish / 100 - s.start / 100
    } else {
        0
    }
}

/// The points of every slot of a section, slot by slot.
pub open spec fn class_points(cl: Seq<Slot>) -> Seq<(u8, u16)>
    decreases cl.len(),
{
    if cl.len() == 0 {
        Seq::empty()
    } else {
        class_points(cl.drop_last()) + slot_points(cl.last())
    }
}

/// The occupancy point cloud of a whole term assignment, entry by entry.
pub open spec fn table_points(table: Seq<(Seq<char>, Seq<Slot>)>) -> Seq<(u8, u16)>
    decreases table.len(),
{
    if table.len() == 0 {
        Seq::empty()
    } else {
        table_points(table.drop_last()) + class_points(table.last().1)
    }
}

/// Builds the occupancy point cloud of a term assignment: for every chosen
/// section, for every slot, one point `(weekday, h)` per whole hour `h` in
/// `[start hour, finish hour)`. The compactness score of a term is computed
/// from this cloud.
pub fn occupancy_points(table: &Vec<(String, Class)>) -> (r: Vec<(u8, u16)>)
    ensures
        r@ == table_points(table_view(table@)),
{
    let ghost tv = table_view(table@);
    let mut r: Vec<(u8, u16)> = Vec::new();
    proof {
        assert(tv.take(0) =~= Seq::<(Seq<char>, Seq<Slot>)>::empty());
        assert(r@ =~= table_points(tv.take(0)));
    }
    let mut i: usize = 0;
    while i < table.len()
        invariant
            0 <= i <= table@.len(),
            tv == table_view(table@),
            r@ == table_points(tv.take(i as int)),
        decreases table@.len() - i,
    {
        let cl = &table[i].1;
        proof {
            assert(cl@ == tv[i as int].1);
        }
        let ghost base = r@;
        let mut j: usize = 0;
        while j < cl.0.len()
            invariant
                0 <= j <= cl@.len(),
                r@ == base + class_points(cl@.take(j as int)),
            decreases cl@.len() - j,
        {
            let s = cl.0[j];
            let ghost base2 = r@;
            let mut h: u16 = s.start / 100;
            let fin: u16 = s.finish / 100;
            proof {
                assert(slot_points(s).take(0) =~= Seq::<(u8, u16)>::empty());
                assert(r@ =~= base2 + slot_points(s).take(0));
            }
            while h < fin
                invariant
                    s == cl@[j as int],
                    fin == s.finish / 100,
                    s.start / 100 <= h <= fin || (h == s.start / 100 && fin < h),
                    r@ == base2 + slot_points(s).take(h - s.start / 100),
                decreases fin - h,
            {
                r.push((s.weekday, h));
                proof {
                    let k = h - s.start / 100;
                    assert(slot_points(s)[k] == (s.weekday, h));
                    assert(slot_points(s).take(k + 1) =~= slot_points(s).take(k).push(
                        (s.weekday, h),
                    ));
                    assert(r@ =~= base2 + slot_points(s).take(k + 1));
                }
                h = h + 1;
            }
            proof {
                assert(slot_points(s).take(slot_points(s).len() as int) =~= slot_points(s));
                assert(r@ == base2 + slot_points(s));
                assert(cl@.take(j + 1).drop_last() =~= cl@.take(j as int));
                assert(cl@.take(j + 1).last() == cl@[j as int]);
                assert(r@ == base + class_points(cl@.take(j + 1)));
            }
            j = j + 1;
        }
        proof {
            assert(cl@.take(cl@.len() as int) =~= cl@);
            assert(tv.take(i + 1).drop_last() =~= tv.take(i as int));
            assert(tv.take(i + 1).last() == tv[i as int]);
            assert(r@ == table_points(tv.take(i + 1)));
        }
        i = i + 1;
    }
    proof {
        assert(tv.take(tv.len() as int) =~= tv);
    }
    r
}

/// Whether position `i` ranks strictly before position `j`: a strictly
/// higher score wins, and among equal scores the later position wins, so
/// that a stable ascending sort read backwards gives the same order.
pub open spec fn ranks_before(scores: Seq<u64>, i: int, j: int) -> bool {
    scores[i] > scores[j] || (scores[i] == scores[j] && i > j)
}

/// Whether `v` holds the value `x`.
fn contains_usize(v: &Vec<usize>, x: usize) -> (r: bool)
    ensures
        r == v@.contains(x),
{
    let mut i: usize = 0;
    while i < v.len()
        invariant
            0 <= i <= v@.len(),
            forall|t: int| 0 <= t < i ==> v@[t] != x,
        decreases v@.len() - i,
    {
        if v[i] == x {
            return true;
        }
        i = i + 1;
    }
    false
}

/// Picks the positions of the `k` best scores, best first: higher scores
/// first, the later position first among equal scores. Every position left
/// out ranks after every position returned.
pub fn top_indices(scores: &Vec<u64>, k: usize) -> (r: Vec<usize>)
    ensures
        r@.len() == if k <= scores@.len() {
            k as int
        } else {
            scores@.len() as int
        },
        forall|a: int| 0 <= a < r@.len() ==> #[trigger] r@[a] < scores@.len(),
        forall|a: int, b: int| 0 <= a < b < r@.len() ==> r@[a] != r@[b],
        forall|a: int, b: int|
            #![trigger r@[a], r@[b]]
            0 <= a < b < r@.len() ==> ranks_before(scores@, r@[a] as int, r@[b] as int),
        forall|a: int, j: int|
            #![trigger r@[a], r@.contains(j as usize)]
            0 <= a < r@.len() && 0 <= j < scores@.len() && !r@.contains(j as usize) ==> ranks_before(
                scores@,
                r@[a] as int,
                j,
            ),
{
    let n = scores.len();
    let rounds = if k <= n {
        k
    } else {
        n
    };
    let mut r: Vec<usize> = Vec::new();
    let mut round: usize = 0;
    while round < rounds
        invariant
            0 <= round <= rounds <= n,
            n == scores@.len(),
            r@.len() == round,
            forall|a: int| 0 <= a < r@.len() ==> #[trigger] r@[a] < n,
            forall|a: int, b: int| 0 <= a < b < r@.len() ==> r@[a] != r@[b],
            forall|a: int, b: int|
                #![trigger r@[a], r@[b]]
                0 <= a < b < r@.len() ==> ranks_before(scores@, r@[a] as int, r@[b] as int),
            forall|a: int, j: int|
                #![trigger r@[a], r@.contains(j as usize)]
                0 <= a < r@.len() && 0 <= j < n && !r@.contains(j as usize) ==> ranks_before(
                    scores@,
                    r@[a] as int,
                    j,
                ),
        decreases rounds - round,
    {
        let mut best: usize = n;
        let mut i: usize = 0;
        while i < n
            invariant
                0 <= i <= n,
                n == scores@.len(),
                round < rounds <= n,
                r@.len() == round,
                best == n || (best < i && !r@.contains(best)),
                best == n ==> forall|t: int| #![trigger r@.contains(t as usize)] 0 <= t < i ==> r@.contains(t as usize),
                best < n ==> forall|t: int|
                    0 <= t < i && !r@.contains(t as usize) && t != best ==> ranks_before(
                        scores@,
                        best as int,
                        t,
                    ),
            decreases n - i,
        {
            let chosen = contains_usize(&r, i);
            if !chosen {
                if best == n || scores[i] > scores[best] || scores[i] == scores[best] {
                    proof {
                        if best < n {
                            assert(ranks_before(scores@, i as int, best as int));
                            assert forall|t: int|
                                0 <= t < i && !r@.contains(t as usize) && t
                                    != i implies ranks_before(scores@, i as int, t) by {
                                if t != best {
                                    assert(ranks_before(scores@, best as int, t));
                                }
                            }
                        }
                    }
                    best = i;
                } else {
                    proof {
                        assert(ranks_before(scores@, best as int, i as int));
                    }
                }
            }
            i = i + 1;
        }
        proof {
            if best == n {
                lemma_short_list_misses_one(r@, n as int);
                let t = choose|t: int| #![trigger r@.contains(t as usize)] 0 <= t < n && !r@.contains(t as usize);
                assert(r@.contains(t as usize));
            }
        }
        let ghost prer = r@;
        r.push(best);
        proof {
            assert forall|a: int, b: int| #![trigger r@[a], r@[b]] 0 <= a < b < r@.len() implies r@[a]
                != r@[b] && ranks_before(scores@, r@[a] as int, r@[b] as int) by {
                if b < prer.len() {
                    assert(r@[a] == prer[a] && r@[b] == prer[b]);
                } else {
                    assert(r@[b] == best && r@[a] == prer[a]);
                    assert(!prer.contains(best as usize));
                    assert(ranks_before(scores@, prer[a] as int, best as int));
                }
            }
            assert forall|a: int, j: int|
                #![trigger r@[a], r@.contains(j as usize)]
                0 <= a < r@.len() && 0 <= j < n && !r@.contains(j as usize) implies ranks_before(
                scores@,
                r@[a] as int,
                j,
            ) by {
                assert forall|x: usize| #[trigger] prer.contains(x) implies r@.contains(x) by {
                    let w = choose|w: int| 0 <= w < prer.len() && prer[w] == x;
                    assert(r@[w] == x);
                }
                if a < prer.len() {
                    assert(r@[a] == prer[a]);
                } else {
                    assert(r@[a] == best);
                    assert(ranks_before(scores@, best as int, j));
                }
            }
        }
        round = round + 1;
    }
    r
}

/// A list of fewer than `n` distinct values below `n` misses at least one.
proof fn lemma_short_list_misses_one(r: Seq<usize>, n: int)
    requires
        0 <= r.len() < n <= usize::MAX,
        forall|a: int| 0 <= a < r.len() ==> #[trigger] r[a] < n,
        forall|a: int, b: int| 0 <= a < b < r.len() ==> r[a] != r[b],
    ensures
        exists|t: int| #![trigger r.contains(t as usize)] 0 <= t < n && !r.contains(t as usize),
{
    if forall|t: int| #![trigger r.contains(t as usize)] 0 <= t < n ==> r.contains(t as usize) {
        lemma_distinct_seq_to_set_len(r);
        assert forall|x: usize| 0 <= x < n implies r.to_set().contains(x) by {
            assert(r.contains(x as usize));
        }
        let all = Set::new(|x: usize| 0 <= x < n);
        assert forall|x: usize| r.to_set().contains(x) implies all.contains(x) by {
            assert(r.contains(x));
        }
        assert(all =~= r.to_set());
        lemma_usize_range_len(n);
    }
}

/// A duplicate-free list's element set is as large as the list.
proof fn lemma_distinct_seq_to_set_len(r: Seq<usize>)
    requires
        forall|a: int, b: int| 0 <= a < b < r.len() ==> r[a] != r[b],
    ensures
        r.to_set().len() == r.len(),
{
    assert(r.no_duplicates()) by {
        assert forall|a: int, b: int|
            0 <= a < r.len() && 0 <= b < r.len() && a != b implies r[a] != r[b] by {
            if a < b {
            } else {
                assert(r[b] != r[a]);
            }
        }
    }
    r.unique_seq_to_set();
}

/// The set of machine integers below `n` has exactly `n` elements.
proof fn lemma_usize_range_len(n: int)
    requires
        0 <= n <= usize::MAX,
    ensures
        Set::new(|x: usize| 0 <= x < n).finite(),
        Set::new(|x: usize| 0 <= x < n).len() == n,
    decreases n,
{
    if n == 0 {
        assert(Set::new(|x: usize| 0 <= x < 0) =~= Set::<usize>::empty());
    } else {
        lemma_usize_range_len(n - 1);
        assert(!Set::new(|x: usize| 0 <= x < n - 1).contains((n - 1) as usize));
        assert(Set::new(|x: usize| 0 <= x < n) =~= Set::new(|x: usize| 0 <= x < n - 1).insert(
            (n - 1) as usize,
        ));
    }
}

} // verus!
