//! Numbers as text: how the fields of a stored figure are read and
//! written.
//!
//! A whole number is a row of decimal digits, with a sign in front where
//! the field allows one. A coordinate is a decimal number with up to three
//! digits behind the point; it is held in thousandths.

use crate::maths::LIMIT;
use vstd::prelude::*;

verus! {

/// The byte is a decimal digit.
pub open spec fn is_digit(b: u8) -> bool {
    48 <= b <= 57
}

/// Every byte is a decimal digit.
pub open spec fn all_digits(s: Seq<u8>) -> bool {
    forall|i: int| 0 <= i < s.len() ==> is_digit(#[trigger] s[i])
}

/// The number that a row of digits writes.
pub open spec fn digits_value(s: Seq<u8>) -> nat
    decreases s.len(),
{
    if s.len() == 0 {
        0
    } else {
        digits_value(s.drop_last()) * 10 + (s.last() - 48) as nat
    }
}

/// The text without a leading sign byte `sign`, if it has one.
pub open spec fn unsigned_part(s: Seq<u8>, sign: u8) -> Seq<u8> {
    if s.len() > 0 && s[0] == sign {
        s.drop_first()
    } else {
        s
    }
}

/// The number that a field for a count or an index writes: digits, with
/// `+` allowed in front. `None` where the field is anything else.
pub open spec fn unsigned_text(s: Seq<u8>) -> Option<nat> {
    let body = unsigned_part(s, 43);
    if body.len() > 0 && all_digits(body) {
        Some(digits_value(body))
    } else {
        None
    }
}

/// The number that a field for a signed whole number writes: digits, with
/// `+` or `-` allowed in front.
pub open spec fn signed_text(s: Seq<u8>) -> Option<int> {
    if s.len() > 0 && s[0] == 45 {
        let body = s.drop_first();
        if body.len() > 0 && all_digits(body) {
            Some(-(digits_value(body) as int))
        } else {
            None
        }
    } else {
        match unsigned_text(s) {
            Some(v) => Some(v as int),
            None => None,
        }
    }
}

/// Where the first decimal point of `s` stands, or the length of `s` if it
/// has none.
pub open spec fn point_at(s: Seq<u8>) -> int
    decreases s.len(),
{
    if s.len() == 0 || s[0] == 46 {
        0
    } else {
        1 + point_at(s.drop_first())
    }
}

/// The thousandths that the digits behind a decimal point write; digits
/// past the third count for nothing.
pub open spec fn fraction_value(frac: Seq<u8>) -> nat {
    if frac.len() == 0 {
        0
    } else if frac.len() == 1 {
        digits_value(frac) * 100
    } else if frac.len() == 2 {
        digits_value(frac) * 10
    } else {
        digits_value(frac.take(3))
    }
}

/// The thousandths that an unsigned decimal number writes: digits, a point
/// and digits, with a digit on at least one side where there is a point.
pub open spec fn magnitude_text(body: Seq<u8>) -> Option<nat> {
    let dot = point_at(body);
    let whole = body.take(dot);
    let frac = if dot < body.len() {
        body.skip(dot + 1)
    } else {
        Seq::empty()
    };
    if all_digits(whole) && all_digits(frac) && whole.len() + frac.len() > 0 {
        Some(digits_value(whole) * 1000 + fraction_value(frac))
    } else {
        None
    }
}

/// The thousandths that a coordinate field writes: a decimal number with
/// `+` or `-` allowed in front.
pub open spec fn decimal_text(s: Seq<u8>) -> Option<int> {
    if s.len() > 0 && s[0] == 45 {
        match magnitude_text(s.drop_first()) {
            Some(v) => Some(-(v as int)),
            None => None,
        }
    } else {
        match magnitude_text(unsigned_part(s, 43)) {
            Some(v) => Some(v as int),
            None => None,
        }
    }
}

/// Reads digits from `from` on, up to the first byte that is no digit or to
/// the end. Returns where it stopped and the number read; the number is
/// `None` once it is above `bound`.
fn read_digits(s: &[u8], from: usize, bound: u64) -> (read: (usize, Option<u64>))
    requires
        from <= s.len(),
    ensures
        from <= read.0 <= s.len(),
        all_digits(s@.subrange(from as int, read.0 as int)),
        read.0 < s.len() ==> !is_digit(s@[read.0 as int]),
        match read.1 {
            Some(v) => v == digits_value(s@.subrange(from as int, read.0 as int)) && v <= bound,
            None => digits_value(s@.subrange(from as int, read.0 as int)) > bound,
        },
{
    let mut i: usize = from;
    let mut value: Option<u64> = Some(0);
    assert(s@.subrange(from as int, from as int) == Seq::<u8>::empty());
    while i < s.len() && 48 <= s[i] && s[i] <= 57
        invariant
            from <= i <= s.len(),
            all_digits(s@.subrange(from as int, i as int)),
            match value {
                Some(v) => v == digits_value(s@.subrange(from as int, i as int)) && v <= bound,
                None => digits_value(s@.subrange(from as int, i as int)) > bound,
            },
        decreases s.len() - i,
    {
        let digit: u64 = (s[i] - 48) as u64;
        let ghost before = s@.subrange(from as int, i as int);
        let ghost now = s@.subrange(from as int, i + 1);
        assert(now.drop_last() == before);
        assert(now.last() == s@[i as int]);
        value =
        match value {
            Some(v) => {
                let next: u128 = v as u128 * 10 + digit as u128;
                if next > bound as u128 {
                    None
                } else {
                    Some(next as u64)
                }
            },
            None => None,
        };
        i += 1;
    }
    (i, value)
}

/// Reads a field that holds a count or an index.
pub fn parse_unsigned(field: &[u8]) -> (parsed: Option<usize>)
    ensures
        parsed == count_of(field@),
{
    let from: usize = if field.len() > 0 && field[0] == 43 {
        1
    } else {
        0
    };
    let bound: u64 = usize::MAX as u64;
    let (stop, value) = read_digits(field, from, bound);
    let ghost body = unsigned_part(field@, 43);
    assert(body == field@.subrange(from as int, field@.len() as int));
    if stop < field.len() || stop == from {
        proof {
            if stop < field.len() {
                assert(body[stop - from] == field@[stop as int]);
            }
        }
        return None;
    }
    match value {
        Some(v) => Some(v as usize),
        None => None,
    }
}

/// Reads a field that holds a signed whole number.
pub fn parse_signed(field: &[u8]) -> (parsed: Option<isize>)
    ensures
        parsed == whole_of(field@),
{
    let negative = field.len() > 0 && field[0] == 45;
    let from: usize = if field.len() > 0 && (field[0] == 43 || field[0] == 45) {
        1
    } else {
        0
    };
    let bound: u64 = isize::MAX as u64;
    let (stop, value) = read_digits(field, from, bound);
    let ghost body = field@.subrange(from as int, field@.len() as int);
    assert(negative ==> body == field@.drop_first());
    assert(!negative ==> body == unsigned_part(field@, 43));
    if stop < field.len() || stop == from {
        proof {
            if stop < field.len() {
                assert(body[stop - from] == field@[stop as int]);
            }
        }
        return None;
    }
    match value {
        Some(v) => if negative {
            Some(-(v as isize))
        } else {
            Some(v as isize)
        },
        None => None,
    }
}

/// Reads the digits behind a decimal point, from `from` on, up to the
/// first byte that is no digit or to the end. Returns where it stopped and
/// the thousandths read.
fn read_fraction(s: &[u8], from: usize) -> (read: (usize, u64))
    requires
        from <= s.len(),
    ensures
        from <= read.0 <= s.len(),
        all_digits(s@.subrange(from as int, read.0 as int)),
        read.0 < s.len() ==> !is_digit(s@[read.0 as int]),
        read.1 == fraction_value(s@.subrange(from as int, read.0 as int)),
        read.1 <= 999,
{
    let mut thousandths: u64 = 0;
    let mut i: usize = from;
    assert(s@.subrange(from as int, from as int) == Seq::<u8>::empty());
    while i < s.len() && 48 <= s[i] && s[i] <= 57
        invariant
            from <= i <= s.len(),
            all_digits(s@.subrange(from as int, i as int)),
            thousandths == fraction_value(s@.subrange(from as int, i as int)),
            thousandths <= 999,
        decreases s.len() - i,
    {
        let digit: u64 = (s[i] - 48) as u64;
        let ghost before = s@.subrange(from as int, i as int);
        let ghost now = s@.subrange(from as int, i + 1);
        assert(now == before.push(s@[i as int]));
        proof {
            lemma_fraction_push(before, s@[i as int]);
        }
        if i - from == 0 {
            thousandths = digit * 100;
        } else if i - from == 1 {
            thousandths = thousandths + digit * 10;
        } else if i - from == 2 {
            thousandths = thousandths + digit;
        }
        i += 1;
    }
    (i, thousandths)
}

/// Reads an unsigned decimal number that fills `s` from `from` on, in
/// thousandths.
fn parse_magnitude(s: &[u8], from: usize) -> (parsed: Option<u64>)
    requires
        from <= s.len(),
    ensures
        parsed == match magnitude_text(s@.subrange(from as int, s@.len() as int)) {
            Some(v) => if v <= LIMIT {
                Some(v as u64)
            } else {
                None
            },
            None => None,
        },
{
    let ghost body = s@.subrange(from as int, s@.len() as int);
    let (dot, whole) = read_digits(s, from, 1_000_000);
    proof {
        lemma_point_at(body, dot - from);
        assert(body.take(dot - from) == s@.subrange(from as int, dot as int));
    }
    if dot < s.len() && s[dot] != 46 {
        assert(body[dot - from] == s@[dot as int]);
        proof {
            lemma_not_a_point(body, dot - from);
        }
        return None;
    }
    assert(point_at(body) == dot - from);
    let start: usize = if dot < s.len() {
        dot + 1
    } else {
        dot
    };
    let ghost frac = if dot < s.len() {
        body.skip(dot - from + 1)
    } else {
        Seq::<u8>::empty()
    };
    assert(frac == s@.subrange(start as int, s@.len() as int));
    let (stop, thousandths) = read_fraction(s, start);
    if stop < s.len() {
        assert(frac[stop - start] == s@[stop as int]);
        return None;
    }
    assert(s@.subrange(start as int, stop as int) == frac);
    if dot - from + (stop - start) == 0 {
        return None;
    }
    match whole {
        Some(units) => {
            let magnitude: u64 = units * 1000 + thousandths;
            if magnitude > 1_000_000_000 {
                None
            } else {
                Some(magnitude)
            }
        },
        None => None,
    }
}

/// Reads a coordinate field, in thousandths. A coordinate out of bounds
/// is refused like a field that is no number.
pub fn parse_decimal(field: &[u8]) -> (parsed: Option<i64>)
    ensures
        parsed == coordinate_of(field@),
{
    let negative = field.len() > 0 && field[0] == 45;
    let from: usize = if field.len() > 0 && (field[0] == 43 || field[0] == 45) {
        1
    } else {
        0
    };
    let ghost body = field@.subrange(from as int, field@.len() as int);
    assert(negative ==> body == field@.drop_first());
    assert(!negative ==> body == unsigned_part(field@, 43));
    match parse_magnitude(field, from) {
        Some(magnitude) => if negative {
            Some(-(magnitude as i64))
        } else {
            Some(magnitude as i64)
        },
        None => None,
    }
}

/// The bytes before the first byte that is no digit hold no decimal point,
/// so the first point is not before that byte; it is that byte if that
/// byte is a point.
pub proof fn lemma_point_at(body: Seq<u8>, k: int)
    requires
        0 <= k <= body.len(),
        all_digits(body.take(k)),
        k < body.len() ==> !is_digit(body[k]),
    ensures
        k == body.len() || body[k] == 46 ==> point_at(body) == k,
        k < body.len() && body[k] != 46 ==> point_at(body) > k || !all_digits(
            body.take(point_at(body)),
        ),
        point_at(body) >= k,
        point_at(body) <= body.len(),
    decreases k,
{
    lemma_point_at_bounds(body);
    if k > 0 {
        assert(body.take(k)[0] == body[0]);
        assert(body[0] != 46);
        let rest = body.drop_first();
        assert(rest.take(k - 1) =~= body.take(k).drop_first());
        assert(all_digits(rest.take(k - 1))) by {
            assert forall|i: int| 0 <= i < rest.take(k - 1).len() implies is_digit(
                #[trigger] rest.take(k - 1)[i],
            ) by {
                assert(rest.take(k - 1)[i] == body.take(k)[i + 1]);
            }
        }
        lemma_point_at(rest, k - 1);
    }
}

/// The first decimal point stands within the text or at its end, and it is
/// a point if it stands within.
pub proof fn lemma_point_at_bounds(body: Seq<u8>)
    ensures
        0 <= point_at(body) <= body.len(),
        point_at(body) < body.len() ==> body[point_at(body)] == 46,
        forall|i: int| 0 <= i < point_at(body) ==> body[i] != 46,
    decreases body.len(),
{
    if body.len() == 0 || body[0] == 46 {
    } else {
        lemma_point_at_bounds(body.drop_first());
        assert forall|i: int| 0 <= i < point_at(body) implies body[i] != 46 by {
            if i > 0 {
                assert(body.drop_first()[i - 1] == body[i]);
            }
        }
    }
}

/// A text whose digits end at a byte that is neither a digit nor a point
/// writes no decimal number.
pub proof fn lemma_not_a_point(body: Seq<u8>, k: int)
    requires
        0 <= k < body.len(),
        all_digits(body.take(k)),
        !is_digit(body[k]),
        body[k] != 46,
    ensures
        magnitude_text(body) is None,
{
    lemma_point_at_bounds(body);
    let dot = point_at(body);
    if dot > k {
        assert(body.take(dot)[k] == body[k]);
    } else if dot < k {
        assert(body.take(k)[dot] == body[dot]);
    }
}

/// What one more digit behind the point adds to the thousandths.
pub proof fn lemma_fraction_push(frac: Seq<u8>, digit: u8)
    requires
        all_digits(frac),
        is_digit(digit),
    ensures
        fraction_value(frac.push(digit)) == fraction_value(frac) + (if frac.len() == 0 {
            (digit - 48) * 100
        } else if frac.len() == 1 {
            (digit - 48) * 10
        } else if frac.len() == 2 {
            (digit - 48) as int
        } else {
            0
        }),
        fraction_value(frac.push(digit)) <= 999,
        all_digits(frac.push(digit)),
{
    let more = frac.push(digit);
    assert(more.drop_last() == frac);
    reveal_with_fuel(digits_value, 4);
    if frac.len() == 0 {
        assert(digits_value(frac) == 0);
    } else if frac.len() == 1 {
        assert(frac.drop_last().len() == 0);
        assert(is_digit(frac[0]));
    } else if frac.len() == 2 {
        assert(is_digit(frac[0]) && is_digit(frac[1]));
        assert(more.take(3) == more);
        assert(frac.drop_last().drop_last().len() == 0);
    } else {
        assert(more.take(3) == frac.take(3));
        let three = frac.take(3);
        assert(is_digit(three[0]) && is_digit(three[1]) && is_digit(three[2])) by {
            assert(three[0] == frac[0] && three[1] == frac[1] && three[2] == frac[2]);
        }
        assert(three.drop_last().drop_last().drop_last().len() == 0);
    }
}

/// A number that is not negative, written in decimal digits.
pub open spec fn nat_text(n: nat) -> Seq<u8>
    decreases n,
{
    if n < 10 {
        seq![(48 + n) as u8]
    } else {
        nat_text(n / 10).push((48 + n % 10) as u8)
    }
}

/// A whole number written in decimal digits, with `-` in front if it is
/// negative.
pub open spec fn int_text(v: int) -> Seq<u8> {
    if v < 0 {
        seq![45u8] + nat_text((-v) as nat)
    } else {
        nat_text(v as nat)
    }
}

/// Thousandths below one thousand, written as a decimal point and digits:
/// nothing for zero, and no zero at the end.
pub open spec fn fraction_text(f: nat) -> Seq<u8> {
    if f == 0 {
        Seq::empty()
    } else if f % 100 == 0 {
        seq![46u8, (48 + f / 100) as u8]
    } else if f % 10 == 0 {
        seq![46u8, (48 + f / 100) as u8, (48 + (f / 10) % 10) as u8]
    } else {
        seq![46u8, (48 + f / 100) as u8, (48 + (f / 10) % 10) as u8, (48 + f % 10) as u8]
    }
}

/// A count of thousandths that is not negative, written as a decimal
/// number.
pub open spec fn magnitude_repr(m: nat) -> Seq<u8> {
    nat_text(m / 1000) + fraction_text(m % 1000)
}

/// A coordinate, held in thousandths, written as a decimal number.
pub open spec fn decimal_repr(v: int) -> Seq<u8> {
    if v < 0 {
        seq![45u8] + magnitude_repr((-v) as nat)
    } else {
        magnitude_repr(v as nat)
    }
}

/// Writes a number in decimal digits at the end of `out`.
pub fn push_nat(out: &mut Vec<u8>, n: u64)
    ensures
        final(out)@ == old(out)@ + nat_text(n as nat),
    decreases n,
{
    if n < 10 {
        out.push(48 + n as u8);
        assert(out@ =~= old(out)@ + nat_text(n as nat));
    } else {
        push_nat(out, n / 10);
        out.push(48 + (n % 10) as u8);
        assert(out@ =~= old(out)@ + nat_text(n as nat));
    }
}

/// Writes a whole number at the end of `out`.
pub fn push_int(out: &mut Vec<u8>, v: i64)
    ensures
        final(out)@ == old(out)@ + int_text(v as int),
{
    if v < 0 {
        out.push(45);
        let magnitude: u64 = (-(v as i128)) as u64;
        push_nat(out, magnitude);
        assert(out@ =~= old(out)@ + int_text(v as int));
    } else {
        push_nat(out, v as u64);
    }
}

/// Writes a coordinate, held in thousandths, at the end of `out`.
pub fn push_decimal(out: &mut Vec<u8>, v: i64)
    ensures
        final(out)@ == old(out)@ + decimal_repr(v as int),
{
    let magnitude: u64 = if v < 0 {
        out.push(45);
        (-(v as i128)) as u64
    } else {
        v as u64
    };
    let ghost signed = out@;
    push_nat(out, magnitude / 1000);
    let f: u64 = magnitude % 1000;
    if f != 0 {
        out.push(46);
        out.push(48 + (f / 100) as u8);
        if f % 100 != 0 {
            out.push(48 + ((f / 10) % 10) as u8);
            if f % 10 != 0 {
                out.push(48 + (f % 10) as u8);
            }
        }
    }
    assert(out@ =~= signed + (nat_text((magnitude / 1000) as nat) + fraction_text(f as nat)));
    assert(out@ =~= old(out)@ + decimal_repr(v as int));
}

/// A number written in digits is digits only, at least one, and reads back
/// as the number.
pub proof fn lemma_nat_text(n: nat)
    ensures
        nat_text(n).len() >= 1,
        all_digits(nat_text(n)),
        digits_value(nat_text(n)) == n,
    decreases n,
{
    if n < 10 {
        assert(nat_text(n).drop_last().len() == 0);
        assert(digits_value(nat_text(n).drop_last()) == 0);
    } else {
        lemma_nat_text(n / 10);
        assert(nat_text(n).drop_last() == nat_text(n / 10));
    }
}

/// A count written by [`nat_text`] reads back as the count.
pub proof fn lemma_unsigned_round_trip(n: nat)
    ensures
        unsigned_text(nat_text(n)) == Some(n),
{
    lemma_nat_text(n);
    assert(is_digit(nat_text(n)[0]));
}

/// A whole number written by [`int_text`] reads back as the number.
pub proof fn lemma_signed_round_trip(v: int)
    ensures
        signed_text(int_text(v)) == Some(v),
{
    if v < 0 {
        lemma_nat_text((-v) as nat);
        assert(int_text(v).drop_first() == nat_text((-v) as nat));
    } else {
        lemma_unsigned_round_trip(v as nat);
        assert(is_digit(nat_text(v as nat)[0])) by {
            lemma_nat_text(v as nat);
        }
    }
}

/// Thousandths written by [`magnitude_repr`] read back as the same
/// thousandths.
pub proof fn lemma_magnitude_round_trip(m: nat)
    ensures
        magnitude_text(magnitude_repr(m)) == Some(m),
        magnitude_repr(m).len() >= 1,
        is_digit(magnitude_repr(m)[0]),
{
    let whole = nat_text(m / 1000);
    let f = m % 1000;
    let tail = fraction_text(f);
    let body = whole + tail;
    let k = whole.len() as int;
    lemma_nat_text(m / 1000);
    assert(is_digit(whole[0]));
    assert(body.take(k) == whole);
    lemma_point_at(body, k);
    assert(point_at(body) == k);
    reveal_with_fuel(digits_value, 4);
    if f == 0 {
        assert(body == whole);
    } else {
        let frac = body.skip(k + 1);
        if f % 100 == 0 {
            assert(frac == seq![(48 + f / 100) as u8]);
            assert(frac.drop_last().len() == 0);
        } else if f % 10 == 0 {
            assert(frac == seq![(48 + f / 100) as u8, (48 + (f / 10) % 10) as u8]);
            assert(frac.drop_last().drop_last().len() == 0);
        } else {
            assert(frac == seq![
                (48 + f / 100) as u8,
                (48 + (f / 10) % 10) as u8,
                (48 + f % 10) as u8,
            ]);
            assert(frac.take(3) == frac);
            assert(frac.drop_last().drop_last().drop_last().len() == 0);
        }
    }
}

/// A coordinate written by [`decimal_repr`] reads back as the same
/// coordinate.
pub proof fn lemma_decimal_round_trip(v: int)
    ensures
        decimal_text(decimal_repr(v)) == Some(v),
{
    if v < 0 {
        lemma_magnitude_round_trip((-v) as nat);
        assert(decimal_repr(v).drop_first() == magnitude_repr((-v) as nat));
    } else {
        lemma_magnitude_round_trip(v as nat);
    }
}

/// The count or index that a field writes, if it writes one that the
/// machine can hold.
pub open spec fn count_of(field: Seq<u8>) -> Option<usize> {
    match unsigned_text(field) {
        Some(v) => if v <= usize::MAX {
            Some(v as usize)
        } else {
            None
        },
        None => None,
    }
}

/// The signed whole number that a field writes, if it writes one that the
/// machine can hold and negate.
pub open spec fn whole_of(field: Seq<u8>) -> Option<isize> {
    match signed_text(field) {
        Some(v) => if -isize::MAX <= v <= isize::MAX {
            Some(v as isize)
        } else {
            None
        },
        None => None,
    }
}

/// The coordinate that a field writes, in thousandths, if it writes one in
/// bounds.
pub open spec fn coordinate_of(field: Seq<u8>) -> Option<i64> {
    match decimal_text(field) {
        Some(v) => if -LIMIT <= v <= LIMIT {
            Some(v as i64)
        } else {
            None
        },
        None => None,
    }
}

/// Where the first byte `sep` of `s` stands, or the length of `s` if it
/// has none.
pub open spec fn first_at(s: Seq<u8>, sep: u8) -> int
    decreases s.len(),
{
    if s.len() == 0 || s[0] == sep {
        0
    } else {
        1 + first_at(s.drop_first(), sep)
    }
}

/// The pieces of `s` between the bytes `sep`: one more than there are such
/// bytes.
pub open spec fn split(s: Seq<u8>, sep: u8) -> Seq<Seq<u8>>
    decreases s.len(),
{
    let k = first_at(s, sep);
    if 0 <= k < s.len() {
        seq![s.take(k)] + split(s.skip(k + 1), sep)
    } else {
        seq![s]
    }
}

/// The byte rows that a list of byte vectors holds.
pub open spec fn pieces(rows: Seq<Vec<u8>>) -> Seq<Seq<u8>> {
    rows.map_values(|row: Vec<u8>| row@)
}

/// If no byte before `k` is `sep`, and `k` is the end or holds `sep`, then
/// the first `sep` stands at `k`.
pub proof fn lemma_first_at(s: Seq<u8>, sep: u8, k: int)
    requires
        0 <= k <= s.len(),
        forall|i: int| 0 <= i < k ==> s[i] != sep,
        k < s.len() ==> s[k] == sep,
    ensures
        first_at(s, sep) == k,
    decreases k,
{
    if k > 0 {
        let rest = s.drop_first();
        assert forall|i: int| 0 <= i < k - 1 implies rest[i] != sep by {
            assert(rest[i] == s[i + 1]);
        }
        lemma_first_at(rest, sep, k - 1);
    }
}

/// A copy of the bytes of `s` from `from` up to `to`.
pub fn copy_range(s: &[u8], from: usize, to: usize) -> (piece: Vec<u8>)
    requires
        from <= to <= s.len(),
    ensures
        piece@ == s@.subrange(from as int, to as int),
{
    let mut piece: Vec<u8> = Vec::new();
    let mut i: usize = from;
    while i < to
        invariant
            from <= i <= to <= s.len(),
            piece@ == s@.subrange(from as int, i as int),
        decreases to - i,
    {
        piece.push(s[i]);
        assert(piece@ =~= s@.subrange(from as int, i + 1));
        i += 1;
    }
    piece
}

/// The pieces of `s` between the bytes `sep`.
pub fn split_bytes(s: &[u8], sep: u8) -> (rows: Vec<Vec<u8>>)
    ensures
        pieces(rows@) == split(s@, sep),
{
    let mut rows: Vec<Vec<u8>> = Vec::new();
    let mut start: usize = 0;
    let mut i: usize = 0;
    assert(s@.skip(0) == s@);
    assert(pieces(rows@) =~= Seq::<Seq<u8>>::empty());
    while i < s.len()
        invariant
            start <= i <= s.len(),
            pieces(rows@) + split(s@.skip(start as int), sep) == split(s@, sep),
            forall|j: int| start <= j < i ==> s@[j] != sep,
        decreases s.len() - i,
    {
        if s[i] == sep {
            let piece = copy_range(s, start, i);
            proof {
                let rest = s@.skip(start as int);
                let k = i - start;
                assert forall|j: int| 0 <= j < k implies rest[j] != sep by {
                    assert(rest[j] == s@[start + j]);
                }
                lemma_first_at(rest, sep, k);
                assert(rest.take(k) == piece@);
                assert(rest.skip(k + 1) == s@.skip(i + 1));
                assert(pieces(rows@.push(piece)) =~= pieces(rows@) + seq![piece@]);
                assert((pieces(rows@) + seq![piece@]) + split(s@.skip(i + 1), sep) =~= pieces(
                    rows@,
                ) + (seq![piece@] + split(s@.skip(i + 1), sep)));
            }
            rows.push(piece);
            start = i + 1;
        }
        i += 1;
    }
    let piece = copy_range(s, start, s.len());
    proof {
        let rest = s@.skip(start as int);
        assert forall|j: int| 0 <= j < rest.len() implies rest[j] != sep by {
            assert(rest[j] == s@[start + j]);
        }
        lemma_first_at(rest, sep, rest.len() as int);
        assert(rest == piece@);
        assert(pieces(rows@.push(piece)) =~= pieces(rows@) + seq![piece@]);
    }
    rows.push(piece);
    rows
}

/// The byte may stand in a number: it is a digit, `-` or `.`.
pub open spec fn is_plain(b: u8) -> bool {
    is_digit(b) || b == 45 || b == 46
}

/// Every byte may stand in a number.
pub open spec fn all_plain(s: Seq<u8>) -> bool {
    forall|i: int| 0 <= i < s.len() ==> is_plain(#[trigger] s[i])
}

/// Written numbers hold nothing but digits, `-` and `.`, and begin with a
/// digit or `-`.
pub proof fn lemma_written_plain(n: nat, v: int)
    ensures
        all_plain(nat_text(n)),
        all_plain(int_text(v)),
        all_plain(decimal_repr(v)),
        nat_text(n).len() > 0 && is_digit(nat_text(n)[0]),
        int_text(v).len() > 0 && (is_digit(int_text(v)[0]) || int_text(v)[0] == 45),
        decimal_repr(v).len() > 0,
{
    lemma_nat_text(n);
    assert(is_digit(nat_text(n)[0]));
    let m: nat = if v < 0 {
        (-v) as nat
    } else {
        v as nat
    };
    lemma_nat_text(m);
    lemma_nat_text(m / 1000);
    assert(is_digit(nat_text(m)[0]));
    assert(all_plain(fraction_text(m % 1000)));
    assert(all_plain(magnitude_repr(m)));
}

/// A text without the byte `sep` is one piece.
pub proof fn lemma_split_one(s: Seq<u8>, sep: u8)
    requires
        forall|i: int| 0 <= i < s.len() ==> s[i] != sep,
    ensures
        split(s, sep) == seq![s],
{
    lemma_first_at(s, sep, s.len() as int);
}

/// A text without the byte `sep`, then `sep`, then more text: the first
/// piece is the text, the other pieces are those of the rest.
pub proof fn lemma_split_first(a: Seq<u8>, b: Seq<u8>, sep: u8)
    requires
        forall|i: int| 0 <= i < a.len() ==> a[i] != sep,
    ensures
        split(a + seq![sep] + b, sep) == seq![a] + split(b, sep),
{
    let whole = a + seq![sep] + b;
    lemma_first_at(whole, sep, a.len() as int);
    assert(whole.take(a.len() as int) == a);
    assert(whole.skip(a.len() as int + 1) == b);
}

/// Text put behind a text that is empty or ends with `sep` adds its pieces
/// to that text's pieces, of which the last is empty and goes.
pub proof fn lemma_split_concat(x: Seq<u8>, t: Seq<u8>, sep: u8)
    requires
        x.len() == 0 || x.last() == sep,
    ensures
        split(x, sep).len() >= 1,
        split(x + t, sep) == split(x, sep).drop_last() + split(t, sep),
    decreases x.len(),
{
    if x.len() == 0 {
        assert(x + t == t);
        assert(split(x, sep) == seq![x]);
        assert(split(x, sep).drop_last() + split(t, sep) =~= split(t, sep));
    } else {
        lemma_first_before(x, sep, x.len() - 1);
        let k = first_at(x, sep);
        let rest = x.skip(k + 1);
        assert(rest.len() == 0 || rest.last() == sep) by {
            if rest.len() > 0 {
                assert(rest.last() == x.last());
            }
        }
        lemma_split_concat(rest, t, sep);
        lemma_first_same(x, t, sep);
        assert((x + t).take(k) == x.take(k));
        assert((x + t).skip(k + 1) == rest + t);
        assert((seq![x.take(k)] + split(rest, sep)).drop_last() =~= seq![x.take(k)] + split(
            rest,
            sep,
        ).drop_last());
        assert(seq![x.take(k)] + (split(rest, sep).drop_last() + split(t, sep)) =~= (seq![
            x.take(k),
        ] + split(rest, sep).drop_last()) + split(t, sep));
    }
}

/// The first `sep` of a text that holds `sep` at `at` stands at `at` or
/// before, within the text, and is a `sep`.
pub proof fn lemma_first_before(s: Seq<u8>, sep: u8, at: int)
    requires
        0 <= at < s.len(),
        s[at] == sep,
    ensures
        0 <= first_at(s, sep) <= at,
        s[first_at(s, sep)] == sep,
    decreases at,
{
    if s[0] != sep {
        lemma_first_before(s.drop_first(), sep, at - 1);
    }
}

/// Text put behind a text that holds `sep` does not move its first `sep`.
pub proof fn lemma_first_same(x: Seq<u8>, t: Seq<u8>, sep: u8)
    requires
        0 <= first_at(x, sep) < x.len(),
    ensures
        first_at(x + t, sep) == first_at(x, sep),
    decreases x.len(),
{
    if x[0] != sep {
        assert((x + t).drop_first() == x.drop_first() + t);
        lemma_first_bounds(x.drop_first(), sep);
        lemma_first_same(x.drop_first(), t, sep);
    }
}

/// The first `sep` stands within the text or at its end.
pub proof fn lemma_first_bounds(s: Seq<u8>, sep: u8)
    ensures
        0 <= first_at(s, sep) <= s.len(),
    decreases s.len(),
{
    if s.len() > 0 && s[0] != sep {
        lemma_first_bounds(s.drop_first(), sep);
    }
}

} // verus!
