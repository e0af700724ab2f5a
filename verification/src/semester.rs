//! Academic terms: one half-year each, ordered, alternating between the two
//! halves of a year.

use vstd::prelude::*;
use crate::slots::{
    all_digits, chars_of, count_char, digits_val, find_single, first_index_of, is_digit,
};

verus! {

/// One academic half-year. `semester` is the half, 1 or 2; the canonical
/// text form is `"{semester}s{year}"`.
#[derive(Clone, Copy, PartialEq, Eq, Structural, Debug)]
pub struct Semester {
    pub year: u16,
    pub semester: u8,
}

impl Semester {
    /// True of every term this library produces or accepts.
    pub open spec fn wf(self) -> bool {
        self.semester == 1 || self.semester == 2
    }

    /// The term right after this one: the half flips, and the year grows by
    /// one when wrapping back to the first half.
    pub fn next(&self) -> (r: Self)
        requires
            self.semester != 1 ==> self.year < u16::MAX,
        ensures
            self.semester == 1 ==> r == (Semester { year: self.year, semester: 2u8 }),
            self.semester != 1 ==> r == (Semester { year: (self.year + 1) as u16, semester: 1u8 }),
            self.wf() ==> r.wf(),
    {
        if self.semester == 1 {
            Semester { year: self.year, semester: 2 }
        } else {
            Semester { year: self.year + 1, semester: 1 }
        }
    }

    /// Parses the canonical text form `"{half}s{year}"`, such as
    /// `"1s2024"`; `None` when the text is malformed.
    pub fn from_text(s: &str) -> (r: Option<Semester>)
        ensures
            r is Some <==> semester_text_wf(s@),
            r matches Some(x) ==> x == parsed_semester(s@),
    {
        let v = chars_of(s);
        let n = v.len();
        proof {
            assert(v@.subrange(0, n as int) =~= s@);
        }
        let sep = match find_single(&v, 0, n, 's') {
            Some(i) => i,
            None => {
                return None;
            },
        };
        proof {
            let si = first_index_of(s@, 's');
            assert(s@.take(si) =~= v@.subrange(0, sep as int));
            assert(s@.skip(si + 1) =~= v@.subrange(sep + 1, n as int));
        }
        let half = match digits_to_u16(&v, 0, sep) {
            Some(x) => x,
            None => {
                return None;
            },
        };
        if half > 255 {
            return None;
        }
        let year = match digits_to_u16(&v, sep + 1, n) {
            Some(x) => x,
            None => {
                return None;
            },
        };
        Some(Semester { year, semester: half as u8 })
    }

    /// The term right before this one: the half flips, and the year shrinks
    /// by one when wrapping back to the second half.
    pub fn previous(&self) -> (r: Self)
        requires
            self.semester == 1 ==> self.year > 0,
        ensures
            self.semester == 1 ==> r == (Semester { year: (self.year - 1) as u16, semester: 2u8 }),
            self.semester != 1 ==> r == (Semester { year: self.year, semester: 1u8 }),
            self.wf() ==> r.wf(),
    {
        if self.semester == 1 {
            Semester { year: self.year - 1, semester: 2 }
        } else {
            Semester { year: self.year, semester: 1 }
        }
    }
}

/// Whether `s` spells a term in canonical form: a half number fitting a
/// `u8`, the letter `s` exactly once, and a year fitting a `u16`.
pub open spec fn semester_text_wf(s: Seq<char>) -> bool {
    let i = first_index_of(s, 's');
    count_char(s, 's') == 1 && all_digits(s.take(i)) && digits_val(s.take(i)) <= u8::MAX
        && all_digits(s.skip(i + 1)) && digits_val(s.skip(i + 1)) <= u16::MAX
}

/// The term a well-formed canonical text denotes.
pub open spec fn parsed_semester(s: Seq<char>) -> Semester {
    let i = first_index_of(s, 's');
    Semester { year: digits_val(s.skip(i + 1)) as u16, semester: digits_val(s.take(i)) as u8 }
}

/// Parses `v[from..to]` as a bare decimal number fitting a `u16`: digits
/// only, no surrounding spaces.
fn digits_to_u16(v: &Vec<char>, from: usize, to: usize) -> (r: Option<u16>)
    requires
        from <= to <= v@.len(),
    ensures
        r is Some <==> all_digits(v@.subrange(from as int, to as int)) && digits_val(
            v@.subrange(from as int, to as int),
        ) <= u16::MAX,
        r matches Some(x) ==> x as int == digits_val(v@.subrange(from as int, to as int)),
{
    let ghost sub = v@.subrange(from as int, to as int);
    if from == to {
        proof {
            assert(sub.len() == 0);
        }
        return None;
    }
    let mut acc: u32 = 0;
    let mut p = from;
    while p < to
        invariant
            from <= p <= to <= v@.len(),
            from < to,
            sub == v@.subrange(from as int, to as int),
            acc <= 65535,
            forall|t: int| 0 <= t < p - from ==> is_digit(#[trigger] sub[t]),
            acc as int == digits_val(sub.take(p - from)),
        decreases to - p,
    {
        let c = v[p];
        let u = c as u32;
        proof {
            assert(sub[p - from] == v@[p as int]);
        }
        if u < 48 || u > 57 {
            proof {
                assert(!is_digit(sub[p - from]));
            }
            return None;
        }
        proof {
            assert(sub.take(p - from + 1).drop_last() =~= sub.take(p - from));
            assert(sub.take(p - from + 1).last() == sub[p - from]);
        }
        acc = acc * 10 + (u - 48);
        if acc > 65535 {
            proof {
                if all_digits(sub) {
                    crate::slots::lemma_digits_val_monotone(sub, p - from + 1);
                }
            }
            return None;
        }
        p = p + 1;
    }
    proof {
        assert(sub.take(to - from) =~= sub);
    }
    Some(acc as u16)
}

} // verus!
