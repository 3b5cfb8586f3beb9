//! The duration literals of a query text.
//!
//! The `promql` crate reads the number of a duration, such as the `5` of
//! `[5m]` or of `offset 5m`, into a `usize` and multiplies it by the seconds
//! of its unit, and panics where either does not fit. The functions here find
//! every place in a text where the parser may read such a number, and say
//! whether it fits.

use vstd::prelude::*;

verus! {

/// Whether a byte is an ASCII digit.
pub open spec fn is_digit(b: u8) -> bool {
    0x30 <= b <= 0x39
}

/// Whether a byte is a space, a tab, a line feed or a carriage return.
pub open spec fn is_space(b: u8) -> bool {
    b == 0x20 || b == 0x09 || b == 0x0a || b == 0x0d
}

/// The index behind the run of digits that starts at `from`.
pub open spec fn digits_end(text: Seq<u8>, from: int) -> int
    decreases text.len() - from,
{
    if 0 <= from < text.len() && is_digit(text[from]) {
        digits_end(text, from + 1)
    } else {
        from
    }
}

/// The index behind the run of white space that starts at `from`.
pub open spec fn spaces_end(text: Seq<u8>, from: int) -> int
    decreases text.len() - from,
{
    if 0 <= from < text.len() && is_space(text[from]) {
        spaces_end(text, from + 1)
    } else {
        from
    }
}

/// The number that a sequence of digits writes in base ten.
pub open spec fn decimal(digits: Seq<u8>) -> nat
    decreases digits.len(),
{
    if digits.len() == 0 {
        0
    } else {
        10 * decimal(digits.drop_last()) + (digits.last() - 0x30) as nat
    }
}

/// The seconds of a duration unit: of `s`, `m`, `h`, `d`, `w` and `y` as the
/// parser counts them (a year as 365 weeks), and 0 for a byte that is no
/// unit.
pub open spec fn unit_seconds(unit: u8) -> nat {
    if unit == 0x73 {
        1
    } else if unit == 0x6d {
        60
    } else if unit == 0x68 {
        3600
    } else if unit == 0x64 {
        86400
    } else if unit == 0x77 {
        604800
    } else if unit == 0x79 {
        220752000
    } else {
        0
    }
}

/// Whether the number at `at`, and its product with the seconds of the unit
/// behind it, fit a `usize`.
pub open spec fn duration_fits(text: Seq<u8>, at: int) -> bool {
    let end = digits_end(text, at);
    let number = decimal(text.subrange(at, end));
    &&& number <= usize::MAX
    &&& end < text.len() ==> number * unit_seconds(text[end]) <= usize::MAX
}

/// Whether the word `offset` stands at `at`.
pub open spec fn offset_at(text: Seq<u8>, at: int) -> bool {
    &&& 0 <= at
    &&& at + 6 <= text.len()
    &&& text[at] == 0x6f
    &&& text[at + 1] == 0x66
    &&& text[at + 2] == 0x66
    &&& text[at + 3] == 0x73
    &&& text[at + 4] == 0x65
    &&& text[at + 5] == 0x74
}

/// Whether every number that stands where the parser may read a duration
/// fits: behind each `[`, and behind each `offset` and the white space that
/// follows it.
pub open spec fn durations_fit(text: Seq<u8>) -> bool {
    &&& forall|i: int| 0 <= i < text.len() && text[i] == 0x5b ==> duration_fits(text, i + 1)
    &&& forall|i: int| offset_at(text, i) ==> duration_fits(text, spaces_end(text, i + 6))
}

/// The run of digits that starts at `from` ends between `from` and the end
/// of the text, and holds digits only.
pub proof fn lemma_digits_end(text: Seq<u8>, from: int)
    requires
        0 <= from <= text.len(),
    ensures
        from <= digits_end(text, from) <= text.len(),
        forall|k: int| from <= k < digits_end(text, from) ==> is_digit(#[trigger] text[k]),
    decreases text.len() - from,
{
    if from < text.len() && is_digit(text[from]) {
        lemma_digits_end(text, from + 1);
    }
}

/// A run of digits that reaches `mid` ends where the run from `mid` ends.
pub proof fn lemma_digits_end_from(text: Seq<u8>, from: int, mid: int)
    requires
        0 <= from <= mid <= text.len(),
        forall|k: int| from <= k < mid ==> is_digit(#[trigger] text[k]),
    ensures
        digits_end(text, from) == digits_end(text, mid),
    decreases mid - from,
{
    if from < mid {
        lemma_digits_end_from(text, from + 1, mid);
    }
}

/// A run of white space that reaches `mid` ends where the run from `mid`
/// ends.
pub proof fn lemma_spaces_end_from(text: Seq<u8>, from: int, mid: int)
    requires
        0 <= from <= mid <= text.len(),
        forall|k: int| from <= k < mid ==> is_space(#[trigger] text[k]),
    ensures
        spaces_end(text, from) == spaces_end(text, mid),
    decreases mid - from,
{
    if from < mid {
        lemma_spaces_end_from(text, from + 1, mid);
    }
}

/// More digits do not write a smaller number.
pub proof fn lemma_decimal_grows(text: Seq<u8>, from: int, mid: int, end: int)
    requires
        0 <= from <= mid <= end <= text.len(),
        forall|k: int| from <= k < end ==> is_digit(#[trigger] text[k]),
    ensures
        decimal(text.subrange(from, mid)) <= decimal(text.subrange(from, end)),
    decreases end - mid,
{
    if mid < end {
        lemma_decimal_grows(text, from, mid, end - 1);
        assert(text.subrange(from, end).drop_last() =~= text.subrange(from, end - 1));
    }
}

/// Says whether the number at `at`, and its product with the seconds of the
/// unit behind it, fit a `usize`.
pub fn duration_fits_at(text: &[u8], at: usize) -> (fits: bool)
    requires
        at <= text.len(),
    ensures
        fits == duration_fits(text@, at as int),
{
    let limit: u128 = usize::MAX as u128;
    let mut number: u128 = 0;
    let mut i: usize = at;
    proof {
        assert(text@.subrange(at as int, at as int) =~= Seq::<u8>::empty());
        lemma_digits_end(text@, at as int);
    }
    while i < text.len() && 0x30 <= text[i] && text[i] <= 0x39
        invariant
            at <= i <= text.len(),
            limit == usize::MAX,
            number == decimal(text@.subrange(at as int, i as int)),
            number <= limit,
            forall|k: int| at <= k < i ==> is_digit(#[trigger] text@[k]),
        decreases text.len() - i,
    {
        let digit: u128 = (text[i] - 0x30) as u128;
        proof {
            assert(text@.subrange(at as int, i + 1).drop_last() =~= text@.subrange(
                at as int,
                i as int,
            ));
        }
        number = 10 * number + digit;
        i = i + 1;
        if number > limit {
            proof {
                let end = digits_end(text@, at as int);
                lemma_digits_end_from(text@, at as int, i as int);
                lemma_digits_end(text@, i as int);
                lemma_decimal_grows(text@, at as int, i as int, end);
            }
            return false;
        }
    }
    proof {
        lemma_digits_end_from(text@, at as int, i as int);
    }
    if i < text.len() {
        let unit = text[i];
        let seconds: u128 = if unit == 0x73 {
            1
        } else if unit == 0x6d {
            60
        } else if unit == 0x68 {
            3600
        } else if unit == 0x64 {
            86400
        } else if unit == 0x77 {
            604800
        } else if unit == 0x79 {
            220752000
        } else {
            0
        };
        assert(number * seconds <= 0xffff_ffff_ffff_ffff * 220752000) by (nonlinear_arith)
            requires
                0 <= number <= 0xffff_ffff_ffff_ffff,
                0 <= seconds <= 220752000,
        ;
        number * seconds <= limit
    } else {
        true
    }
}

/// Says whether every number that stands where the parser may read a
/// duration fits a `usize`, alone and multiplied by the seconds of its unit.
pub fn check_durations(text: &[u8]) -> (fit: bool)
    ensures
        fit == durations_fit(text@),
{
    let mut i: usize = 0;
    while i < text.len()
        invariant
            i <= text.len(),
            forall|k: int| 0 <= k < i && text@[k] == 0x5b ==> duration_fits(text@, k + 1),
            forall|k: int|
                k < i && offset_at(text@, k) ==> duration_fits(text@, spaces_end(text@, k + 6)),
        decreases text.len() - i,
    {
        if text[i] == 0x5b {
            if !duration_fits_at(text, i + 1) {
                return false;
            }
        }
        if text.len() - i >= 6 && text[i] == 0x6f && text[i + 1] == 0x66 && text[i + 2] == 0x66
            && text[i + 3] == 0x73 && text[i + 4] == 0x65 && text[i + 5] == 0x74 {
            let mut j: usize = i + 6;
            while j < text.len() && (text[j] == 0x20 || text[j] == 0x09 || text[j] == 0x0a
                || text[j] == 0x0d)
                invariant
                    i + 6 <= j <= text.len(),
                    forall|k: int| i + 6 <= k < j ==> is_space(#[trigger] text@[k]),
                decreases text.len() - j,
            {
                j = j + 1;
            }
            proof {
                lemma_spaces_end_from(text@, i + 6, j as int);
                assert(spaces_end(text@, j as int) == j);
                assert(offset_at(text@, i as int));
            }
            if !duration_fits_at(text, j) {
                return false;
            }
        }
        i = i + 1;
    }
    true
}

} // verus!
