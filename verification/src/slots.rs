//! Weekly meeting slots: a weekday together with a start and finish time on
//! a 24-hour clock, encoded as `hour * 100 + minute`.

use vstd::prelude::*;
use vstd::string::StrSliceExecFns;

verus! {

/// One weekly recurring meeting interval. `weekday` runs from 1 (Sunday) to
/// 7 (Saturday); `start` and `finish` encode clock times as
/// `hour * 100 + minute`, and a well-formed slot has `start < finish`.
#[derive(Copy, PartialEq, Eq, Structural, Debug)]
pub struct Slot {
    pub weekday: u8,
    pub start: u16,
    pub finish: u16,
}

impl Clone for Slot {
    fn clone(&self) -> (r: Self)
        ensures
            r == *self,
    {
        Slot { weekday: self.weekday, start: self.start, finish: self.finish }
    }
}

impl Slot {
    /// The invariant a slot read from real schedule data satisfies.
    pub open spec fn wf(self) -> bool {
        1 <= self.weekday <= 7 && self.start < self.finish
    }
}

/// Two slots collide when they fall on the same weekday and their half-open
/// time intervals `[start, finish)` overlap.
pub open spec fn slots_overlap(a: Slot, b: Slot) -> bool {
    a.weekday == b.weekday && a.start < b.finish && a.finish > b.start
}

/// Slot collision does not depend on the order of the two slots.
pub proof fn lemma_slots_overlap_symmetric(a: Slot, b: Slot)
    ensures
        slots_overlap(a, b) == slots_overlap(b, a),
{
}

/// Runtime form of [`slots_overlap`].
pub fn slot_conflicts_with(a: &Slot, b: &Slot) -> (r: bool)
    ensures
        r == slots_overlap(*a, *b),
{
    a.weekday == b.weekday && a.start < b.finish && a.finish > b.start
}

/// Whether `c` is a decimal digit.
pub open spec fn is_digit(c: char) -> bool {
    48 <= c as u32 <= 57
}

/// The value of the digit `c`.
pub open spec fn digit_val(c: char) -> int {
    c as u32 - 48
}

/// Whether `s` is one or more decimal digits.
pub open spec fn all_digits(s: Seq<char>) -> bool {
    s.len() > 0 && forall|i: int| 0 <= i < s.len() ==> is_digit(#[trigger] s[i])
}

/// The number the digits of `s` spell.
pub open spec fn digits_val(s: Seq<char>) -> int
    decreases s.len(),
{
    if s.len() == 0 {
        0
    } else {
        digits_val(s.drop_last()) * 10 + digit_val(s.last())
    }
}

/// `s` without its leading spaces.
pub open spec fn trim_front(s: Seq<char>) -> Seq<char>
    decreases s.len(),
{
    if s.len() > 0 && s.first() == ' ' {
        trim_front(s.drop_first())
    } else {
        s
    }
}

/// `s` without its trailing spaces.
pub open spec fn trim_back(s: Seq<char>) -> Seq<char>
    decreases s.len(),
{
    if s.len() > 0 && s.last() == ' ' {
        trim_back(s.drop_last())
    } else {
        s
    }
}

/// `s` without its surrounding spaces.
pub open spec fn trimmed(s: Seq<char>) -> Seq<char> {
    trim_back(trim_front(s))
}

/// Whether `s`, spaces aside, is a decimal number that fits a `u16`.
pub open spec fn num_wf(s: Seq<char>) -> bool {
    all_digits(trimmed(s)) && digits_val(trimmed(s)) <= u16::MAX
}

/// The number `s` spells, spaces aside.
pub open spec fn num_val(s: Seq<char>) -> int {
    digits_val(trimmed(s))
}

/// How often `c` occurs in `s`.
pub open spec fn count_char(s: Seq<char>, c: char) -> int
    decreases s.len(),
{
    if s.len() == 0 {
        0
    } else {
        count_char(s.drop_last(), c) + if s.last() == c {
            1int
        } else {
            0int
        }
    }
}

/// The position of the first occurrence of `c` in `s`.
pub open spec fn first_index_of(s: Seq<char>, c: char) -> int
    decreases s.len(),
{
    if s.len() == 0 {
        0
    } else if s.first() == c {
        0
    } else {
        1 + first_index_of(s.drop_first(), c)
    }
}

/// Whether `t` spells a clock time `H:M` — a number of hours and a number
/// of minutes around a single colon — whose `hour * 100 + minute` encoding
/// fits a `u16`.
pub open spec fn time_wf(t: Seq<char>) -> bool {
    let i = first_index_of(t, ':');
    count_char(t, ':') == 1 && num_wf(t.take(i)) && num_wf(t.skip(i + 1)) && num_val(t.take(i))
        * 100 + num_val(t.skip(i + 1)) <= u16::MAX
}

/// The `hour * 100 + minute` encoding of the clock time `t` spells.
pub open spec fn time_val(t: Seq<char>) -> int {
    let i = first_index_of(t, ':');
    num_val(t.take(i)) * 100 + num_val(t.skip(i + 1))
}

/// Whether `d` spells a time range: two well-formed clock times around a
/// single dash.
pub open spec fn duration_wf(d: Seq<char>) -> bool {
    let i = first_index_of(d, '-');
    count_char(d, '-') == 1 && time_wf(d.take(i)) && time_wf(d.skip(i + 1))
}

/// The weekday number a Portuguese weekday name denotes, from 1 (Sunday) to
/// 7 (Saturday).
pub open spec fn weekday_num(w: Seq<char>) -> Option<u8> {
    if w == "Domingo"@ {
        Some(1u8)
    } else if w == "Segunda"@ {
        Some(2u8)
    } else if w == "Terça"@ {
        Some(3u8)
    } else if w == "Quarta"@ {
        Some(4u8)
    } else if w == "Quinta"@ {
        Some(5u8)
    } else if w == "Sexta"@ {
        Some(6u8)
    } else if w == "Sábado"@ {
        Some(7u8)
    } else {
        None
    }
}

/// The slot a well-formed weekday name and time range denote.
pub open spec fn parsed_slot(w: Seq<char>, d: Seq<char>) -> Slot {
    let i = first_index_of(d, '-');
    Slot {
        weekday: weekday_num(w).unwrap(),
        start: time_val(d.take(i)) as u16,
        finish: time_val(d.skip(i + 1)) as u16,
    }
}

/// A digit string spells a non-negative number.
proof fn lemma_digits_val_nonneg(s: Seq<char>)
    requires
        forall|i: int| 0 <= i < s.len() ==> is_digit(#[trigger] s[i]),
    ensures
        digits_val(s) >= 0,
    decreases s.len(),
{
    if s.len() > 0 {
        lemma_digits_val_nonneg(s.drop_last());
    }
}

/// Extending a digit string never shrinks the number it spells.
pub(crate) proof fn lemma_digits_val_monotone(s: Seq<char>, k: int)
    requires
        0 <= k <= s.len(),
        forall|i: int| 0 <= i < s.len() ==> is_digit(#[trigger] s[i]),
    ensures
        digits_val(s) >= digits_val(s.take(k)),
    decreases s.len(),
{
    lemma_digits_val_nonneg(s);
    if k < s.len() {
        lemma_digits_val_monotone(s.drop_last(), k);
        assert(s.drop_last().take(k) =~= s.take(k));
        lemma_digits_val_nonneg(s.drop_last());
    } else {
        assert(s.take(k) =~= s);
    }
}

/// Where `c` occurs, `first_index_of` names its first occurrence.
proof fn lemma_first_index_of(s: Seq<char>, c: char)
    requires
        s.contains(c),
    ensures
        0 <= first_index_of(s, c) < s.len(),
        s[first_index_of(s, c)] == c,
        forall|t: int| 0 <= t < first_index_of(s, c) ==> s[t] != c,
    decreases s.len(),
{
    if s.first() != c {
        assert(s.drop_first().contains(c)) by {
            let w = choose|w: int| 0 <= w < s.len() && s[w] == c;
            assert(s.drop_first()[w - 1] == c);
        }
        lemma_first_index_of(s.drop_first(), c);
        let i = first_index_of(s, c);
        assert(s[i] == s.drop_first()[i - 1]);
        assert forall|t: int| 0 <= t < i implies s[t] != c by {
            if t > 0 {
                assert(s[t] == s.drop_first()[t - 1]);
            }
        }
    }
}

/// The characters of `s`, in order.
pub(crate) fn chars_of(s: &str) -> (r: Vec<char>)
    ensures
        r@ == s@,
{
    let n = s.unicode_len();
    let mut r: Vec<char> = Vec::new();
    let mut i: usize = 0;
    while i < n
        invariant
            0 <= i <= n,
            n == s@.len(),
            r@ == s@.take(i as int),
        decreases n - i,
    {
        let c = s.get_char(i);
        r.push(c);
        proof {
            assert(r@ =~= s@.take(i + 1));
        }
        i = i + 1;
    }
    proof {
        assert(s@.take(n as int) =~= s@);
    }
    r
}

/// Parses `v[from..to]`, spaces aside, as a decimal number fitting a `u16`.
fn parse_num(v: &Vec<char>, from: usize, to: usize) -> (r: Option<u16>)
    requires
        from <= to <= v@.len(),
    ensures
        r is Some <==> num_wf(v@.subrange(from as int, to as int)),
        r matches Some(x) ==> x as int == num_val(v@.subrange(from as int, to as int)),
{
    let ghost sub = v@.subrange(from as int, to as int);
    let mut lo = from;
    while lo < to && v[lo] == ' '
        invariant
            from <= lo <= to <= v@.len(),
            sub == v@.subrange(from as int, to as int),
            trim_front(sub) == trim_front(v@.subrange(lo as int, to as int)),
        decreases to - lo,
    {
        proof {
            let cur = v@.subrange(lo as int, to as int);
            assert(cur.first() == v@[lo as int]);
            assert(cur.drop_first() =~= v@.subrange(lo + 1, to as int));
        }
        lo = lo + 1;
    }
    proof {
        assert(trim_front(sub) == v@.subrange(lo as int, to as int));
    }
    let mut hi = to;
    while hi > lo && v[hi - 1] == ' '
        invariant
            from <= lo <= hi <= to <= v@.len(),
            trim_front(sub) == v@.subrange(lo as int, to as int),
            trim_back(trim_front(sub)) == trim_back(v@.subrange(lo as int, hi as int)),
        decreases hi - lo,
    {
        proof {
            let cur = v@.subrange(lo as int, hi as int);
            assert(cur.last() == v@[hi - 1]);
            assert(cur.drop_last() =~= v@.subrange(lo as int, hi - 1));
        }
        hi = hi - 1;
    }
    let ghost core = v@.subrange(lo as int, hi as int);
    proof {
        assert(trimmed(sub) == core);
    }
    if lo == hi {
        proof {
            assert(core.len() == 0);
        }
        return None;
    }
    let mut acc: u32 = 0;
    let mut p = lo;
    while p < hi
        invariant
            lo <= p <= hi <= v@.len(),
            lo < hi,
            sub == v@.subrange(from as int, to as int),
            trimmed(sub) == core,
            core == v@.subrange(lo as int, hi as int),
            acc <= 65535,
            forall|t: int| 0 <= t < p - lo ==> is_digit(#[trigger] core[t]),
            acc as int == digits_val(core.take(p - lo)),
        decreases hi - p,
    {
        let c = v[p];
        let u = c as u32;
        proof {
            assert(core[p - lo] == v@[p as int]);
        }
        if u < 48 || u > 57 {
            proof {
                assert(!is_digit(core[p - lo]));
            }
            return None;
        }
        proof {
            assert(core.take(p - lo + 1).drop_last() =~= core.take(p - lo));
            assert(core.take(p - lo + 1).last() == core[p - lo]);
        }
        acc = acc * 10 + (u - 48);
        if acc > 65535 {
            proof {
                if all_digits(core) {
                    lemma_digits_val_monotone(core, p - lo + 1);
                }
            }
            return None;
        }
        p = p + 1;
    }
    proof {
        assert(core.take(hi - lo) =~= core);
    }
    Some(acc as u16)
}

/// Finds the single occurrence of `c` in `v[from..to]`, if there is exactly
/// one.
pub(crate) fn find_single(v: &Vec<char>, from: usize, to: usize, c: char) -> (r: Option<usize>)
    requires
        from <= to <= v@.len(),
    ensures
        r is Some <==> count_char(v@.subrange(from as int, to as int), c) == 1,
        r matches Some(i) ==> from <= i < to && v@[i as int] == c && i - from == first_index_of(
            v@.subrange(from as int, to as int),
            c,
        ),
{
    let ghost sub = v@.subrange(from as int, to as int);
    let mut cnt: usize = 0;
    let mut firstpos: usize = 0;
    let mut p = from;
    while p < to
        invariant
            from <= p <= to <= v@.len(),
            sub == v@.subrange(from as int, to as int),
            cnt <= p - from,
            cnt as int == count_char(sub.take(p - from), c),
            cnt > 0 ==> from <= firstpos < p && v@[firstpos as int] == c && (forall|t: int|
                0 <= t < firstpos - from ==> sub[t] != c),
            cnt == 0 ==> forall|t: int| 0 <= t < p - from ==> sub[t] != c,
        decreases to - p,
    {
        proof {
            assert(sub.take(p - from + 1).drop_last() =~= sub.take(p - from));
            assert(sub.take(p - from + 1).last() == sub[p - from]);
            assert(sub[p - from] == v@[p as int]);
        }
        if v[p] == c {
            if cnt == 0 {
                firstpos = p;
            }
            cnt = cnt + 1;
        }
        p = p + 1;
    }
    proof {
        assert(sub.take(to - from) =~= sub);
    }
    if cnt == 1 {
        proof {
            assert(sub[firstpos - from] == c);
            assert(sub.contains(c));
            lemma_first_index_of(sub, c);
            let fi = first_index_of(sub, c);
            assert(sub[fi] == c);
            if fi < firstpos - from {
                assert(sub[fi] != c);
            }
            if fi > firstpos - from {
                assert(sub[firstpos - from] != c);
            }
        }
        Some(firstpos)
    } else {
        None
    }
}

/// Parses `v[from..to]` as a clock time `H:M`, encoded `hour * 100 +
/// minute`.
fn parse_time(v: &Vec<char>, from: usize, to: usize) -> (r: Option<u16>)
    requires
        from <= to <= v@.len(),
    ensures
        r is Some <==> time_wf(v@.subrange(from as int, to as int)),
        r matches Some(x) ==> x as int == time_val(v@.subrange(from as int, to as int)),
{
    let ghost sub = v@.subrange(from as int, to as int);
    let colon = match find_single(v, from, to, ':') {
        Some(i) => i,
        None => {
            return None;
        },
    };
    proof {
        let ci = first_index_of(sub, ':');
        assert(sub.take(ci) =~= v@.subrange(from as int, colon as int));
        assert(sub.skip(ci + 1) =~= v@.subrange(colon + 1, to as int));
    }
    let h = match parse_num(v, from, colon) {
        Some(x) => x,
        None => {
            return None;
        },
    };
    let m = match parse_num(v, colon + 1, to) {
        Some(x) => x,
        None => {
            return None;
        },
    };
    let total: u32 = h as u32 * 100 + m as u32;
    if total > 65535 {
        return None;
    }
    Some(total as u16)
}

/// The weekday number `w` names in Portuguese, if any.
fn parse_weekday(w: &String) -> (r: Option<u8>)
    ensures
        r == weekday_num(w@),
{
    if w.eq(&"Domingo".to_owned()) {
        Some(1)
    } else if w.eq(&"Segunda".to_owned()) {
        Some(2)
    } else if w.eq(&"Terça".to_owned()) {
        Some(3)
    } else if w.eq(&"Quarta".to_owned()) {
        Some(4)
    } else if w.eq(&"Quinta".to_owned()) {
        Some(5)
    } else if w.eq(&"Sexta".to_owned()) {
        Some(6)
    } else if w.eq(&"Sábado".to_owned()) {
        Some(7)
    } else {
        None
    }
}

impl Slot {
    /// Parses a Portuguese weekday name and a `"HH:MM - HH:MM"` time range
    /// into a slot; `None` when either token is malformed.
    pub fn try_new(weekday_pt: String, duration: String) -> (r: Option<Slot>)
        ensures
            r is Some <==> weekday_num(weekday_pt@) is Some && duration_wf(duration@),
            r matches Some(s) ==> s == parsed_slot(weekday_pt@, duration@),
    {
        let wd = match parse_weekday(&weekday_pt) {
            Some(w) => w,
            None => {
                return None;
            },
        };
        let v = chars_of(duration.as_str());
        let n = v.len();
        proof {
            assert(v@.subrange(0, n as int) =~= duration@);
        }
        let dash = match find_single(&v, 0, n, '-') {
            Some(i) => i,
            None => {
                return None;
            },
        };
        proof {
            let di = first_index_of(duration@, '-');
            assert(duration@.take(di) =~= v@.subrange(0, dash as int));
            assert(duration@.skip(di + 1) =~= v@.subrange(dash + 1, n as int));
        }
        let start = match parse_time(&v, 0, dash) {
            Some(x) => x,
            None => {
                return None;
            },
        };
        let finish = match parse_time(&v, dash + 1, n) {
            Some(x) => x,
            None => {
                return None;
            },
        };
        Some(Slot { weekday: wd, start, finish })
    }

    /// Builds a slot from a Portuguese weekday name and a `"HH:MM - HH:MM"`
    /// time range, both known to be well-formed.
    pub fn new(weekday_pt: String, duration: String) -> (r: Self)
        requires
            weekday_num(weekday_pt@) is Some,
            duration_wf(duration@),
        ensures
            r == parsed_slot(weekday_pt@, duration@),
    {
        let ghost w = weekday_pt@;
        let ghost d = duration@;
        match Slot::try_new(weekday_pt, duration) {
            Some(s) => s,
            None => vstd::pervasive::unreached(),
        }
    }
}

} // verus!
