//! Parsing one line of the OSTN15 data file.
//!
//! A data line holds six comma-separated fields:
//! `id, easting_m, northing_m, easting_shift, northing_shift, height_shift`.
//! The two absolute-position fields are discarded; the identifier is read as
//! a 32-bit integer and the three shifts as decimals with at most three
//! fraction digits, carried exactly as counts of thousandths.

use vstd::prelude::*;

use crate::shift::Shift;
use crate::shift::ShiftRecord;

verus! {

/// Field delimiter of the data file.
pub const COMMA: u8 = 44;

/// Decimal point inside a shift field.
pub const DOT: u8 = 46;

/// Leading sign bytes of a numeric field.
pub const PLUS: u8 = 43;

/// Leading sign byte of a negative numeric field.
pub const MINUS: u8 = 45;

pub open spec fn is_digit(b: u8) -> bool {
    48 <= b <= 57
}

pub open spec fn digit_val(b: u8) -> int {
    b as int - 48
}

pub open spec fn all_digits(s: Seq<u8>) -> bool {
    forall|i: int| 0 <= i < s.len() ==> is_digit(s[i])
}

/// The value of a sequence of decimal digit bytes, most significant first.
pub open spec fn digits_val(s: Seq<u8>) -> int
    decreases s.len(),
{
    if s.len() == 0 {
        0
    } else {
        digits_val(s.drop_last()) * 10 + digit_val(s.last())
    }
}

pub proof fn lemma_digits_val_nonneg(s: Seq<u8>)
    requires
        all_digits(s),
    ensures
        digits_val(s) >= 0,
    decreases s.len(),
{
    if s.len() > 0 {
        lemma_digits_val_nonneg(s.drop_last());
    }
}

/// Appending digits never shrinks the value of a digit string.
pub proof fn lemma_digits_val_prefix_le(s: Seq<u8>, k: int)
    requires
        all_digits(s),
        0 <= k <= s.len(),
    ensures
        digits_val(s.take(k)) <= digits_val(s),
    decreases s.len(),
{
    if k < s.len() {
        assert(s.drop_last().take(k) =~= s.take(k));
        lemma_digits_val_prefix_le(s.drop_last(), k);
        lemma_digits_val_nonneg(s.drop_last());
    } else {
        assert(s.take(k) =~= s);
    }
}

pub open spec fn has_sign(s: Seq<u8>) -> bool {
    s.len() > 0 && (s[0] == PLUS || s[0] == MINUS)
}

pub open spec fn is_neg(s: Seq<u8>) -> bool {
    s.len() > 0 && s[0] == MINUS
}

/// The field with a leading sign byte, if any, removed.
pub open spec fn digits_part(s: Seq<u8>) -> Seq<u8> {
    if has_sign(s) {
        s.drop_first()
    } else {
        s
    }
}

/// An integer field: an optional sign followed by at least one digit.
pub open spec fn valid_int_field(s: Seq<u8>) -> bool {
    digits_part(s).len() > 0 && all_digits(digits_part(s))
}

pub open spec fn int_field_value(s: Seq<u8>) -> int {
    if is_neg(s) {
        -digits_val(digits_part(s))
    } else {
        digits_val(digits_part(s))
    }
}

/// A record identifier: an integer field whose value fits in an `i32`.
pub open spec fn valid_id_field(s: Seq<u8>) -> bool {
    valid_int_field(s) && i32::MIN <= int_field_value(s) <= i32::MAX
}

/// Index of the first occurrence of `b` in `s`, or `s.len()` if absent.
pub open spec fn find_byte(s: Seq<u8>, b: u8) -> int
    decreases s.len(),
{
    if s.len() == 0 {
        0
    } else if s[0] == b {
        0
    } else {
        1 + find_byte(s.drop_first(), b)
    }
}

pub proof fn lemma_find_byte(s: Seq<u8>, b: u8)
    ensures
        0 <= find_byte(s, b) <= s.len(),
        find_byte(s, b) < s.len() ==> s[find_byte(s, b)] == b,
        forall|i: int| 0 <= i < find_byte(s, b) ==> s[i] != b,
    decreases s.len(),
{
    if s.len() > 0 && s[0] != b {
        lemma_find_byte(s.drop_first(), b);
        assert forall|i: int| 0 <= i < find_byte(s, b) implies s[i] != b by {
            if i > 0 {
                assert(s.drop_first()[i - 1] == s[i]);
            }
        }
    }
}

/// The digits before the decimal point of a shift field (sign removed).
pub open spec fn int_digits(s: Seq<u8>) -> Seq<u8> {
    digits_part(s).take(find_byte(digits_part(s), DOT))
}

pub open spec fn has_dot(s: Seq<u8>) -> bool {
    find_byte(digits_part(s), DOT) < digits_part(s).len()
}

/// The digits after the decimal point of a shift field, empty if no point.
pub open spec fn frac_digits(s: Seq<u8>) -> Seq<u8> {
    let t = digits_part(s);
    let d = find_byte(t, DOT);
    if d < t.len() {
        t.subrange(d + 1, t.len() as int)
    } else {
        Seq::empty()
    }
}

/// Weight of the fraction digits: the fraction is scaled to thousandths.
pub open spec fn frac_scale(n: int) -> int {
    if n == 1 {
        100
    } else if n == 2 {
        10
    } else {
        1
    }
}

/// Magnitude of a shift field in thousandths.
pub open spec fn shift_field_magnitude(s: Seq<u8>) -> int {
    digits_val(int_digits(s)) * 1000 + digits_val(frac_digits(s)) * frac_scale(
        frac_digits(s).len() as int,
    )
}

/// A shift field: an optional sign, at least one digit, then optionally a
/// decimal point followed by one to three digits, the whole value no larger
/// in thousandths than an `i64` can hold.
pub open spec fn valid_shift_field(s: Seq<u8>) -> bool {
    &&& int_digits(s).len() > 0
    &&& all_digits(int_digits(s))
    &&& (has_dot(s) ==> 1 <= frac_digits(s).len() <= 3 && all_digits(frac_digits(s)))
    &&& shift_field_magnitude(s) <= i64::MAX
}

pub open spec fn shift_field_value(s: Seq<u8>) -> int {
    if is_neg(s) {
        -shift_field_magnitude(s)
    } else {
        shift_field_magnitude(s)
    }
}

/// The fields of a line, split at every comma. A line always holds at least
/// one field; an empty line holds exactly one, itself empty.
pub open spec fn split_at_commas(s: Seq<u8>) -> Seq<Seq<u8>>
    decreases s.len(),
{
    if s.len() == 0 {
        seq![Seq::<u8>::empty()]
    } else if s[0] == COMMA {
        seq![Seq::<u8>::empty()].add(split_at_commas(s.drop_first()))
    } else {
        let rest = split_at_commas(s.drop_first());
        rest.update(0, seq![s[0]].add(rest[0]))
    }
}

pub proof fn lemma_split_len_pos(s: Seq<u8>)
    ensures
        split_at_commas(s).len() >= 1,
    decreases s.len(),
{
    if s.len() > 0 {
        lemma_split_len_pos(s.drop_first());
    }
}

/// Extending a line by one byte either extends its last field or, at a
/// comma, opens a new empty field.
pub proof fn lemma_split_push(s: Seq<u8>, b: u8)
    ensures
        b == COMMA ==> split_at_commas(s.push(b)) == split_at_commas(s).push(
            Seq::<u8>::empty(),
        ),
        b != COMMA ==> split_at_commas(s.push(b)) == split_at_commas(s).update(
            split_at_commas(s).len() - 1,
            split_at_commas(s).last().push(b),
        ),
    decreases s.len(),
{
    lemma_split_len_pos(s);
    if s.len() == 0 {
        assert(s.push(b).drop_first() =~= Seq::<u8>::empty());
        assert(s.push(b)[0] == b);
        assert(s.push(b).len() == 1);
        assert(split_at_commas(Seq::<u8>::empty()) == seq![Seq::<u8>::empty()]);
        if b == COMMA {
            assert(split_at_commas(s.push(b)) =~~= split_at_commas(s).push(Seq::<u8>::empty()));
        } else {
            assert(split_at_commas(s.push(b)) =~~= split_at_commas(s).update(
                0,
                split_at_commas(s).last().push(b),
            ));
        }
    } else {
        let d = s.drop_first();
        lemma_split_len_pos(d);
        assert(s.push(b).drop_first() =~= d.push(b));
        lemma_split_push(d, b);
        if b == COMMA {
            if s[0] == COMMA {
                assert(split_at_commas(s.push(b)) =~~= split_at_commas(s).push(
                    Seq::<u8>::empty(),
                ));
            } else {
                assert(split_at_commas(s.push(b)) =~~= split_at_commas(s).push(
                    Seq::<u8>::empty(),
                ));
            }
        } else {
            if s[0] == COMMA {
                assert(split_at_commas(s.push(b)) =~~= split_at_commas(s).update(
                    split_at_commas(s).len() - 1,
                    split_at_commas(s).last().push(b),
                ));
            } else {
                let rest = split_at_commas(d);
                let restp = split_at_commas(d.push(b));
                assert(restp == rest.update(rest.len() - 1, rest.last().push(b)));
                if rest.len() == 1 {
                    assert(restp[0] == rest[0].push(b));
                    assert(seq![s[0]].add(rest[0].push(b)) =~= seq![s[0]].add(rest[0]).push(b));
                    assert(split_at_commas(s.push(b)) =~~= split_at_commas(s).update(
                        split_at_commas(s).len() - 1,
                        split_at_commas(s).last().push(b),
                    ));
                } else {
                    assert(restp[0] == rest[0]);
                    assert(split_at_commas(s.push(b)) =~~= split_at_commas(s).update(
                        split_at_commas(s).len() - 1,
                        split_at_commas(s).last().push(b),
                    ));
                }
            }
        }
    }
}

/// Find the boundaries of every comma-separated field of `line`. The field
/// `k` of the line is the byte range `r[k].0 .. r[k].1`.
pub fn split_bounds(line: &[u8]) -> (r: Vec<(usize, usize)>)
    ensures
        r@.len() == split_at_commas(line@).len(),
        forall|k: int|
            0 <= k < r@.len() ==> #[trigger] r@[k].0 <= r@[k].1 <= line@.len()
                && line@.subrange(r@[k].0 as int, r@[k].1 as int) == split_at_commas(line@)[k],
{
    let len = line.len();
    let mut bounds: Vec<(usize, usize)> = Vec::new();
    let mut start: usize = 0;
    let mut j: usize = 0;
    while j < len
        invariant
            start <= j <= len,
            len == line@.len(),
            bounds@.len() + 1 == split_at_commas(line@.take(j as int)).len(),
            forall|k: int|
                0 <= k < bounds@.len() ==> #[trigger] bounds@[k].0 <= bounds@[k].1 <= j
                    && line@.subrange(bounds@[k].0 as int, bounds@[k].1 as int)
                    == split_at_commas(line@.take(j as int))[k],
            line@.subrange(start as int, j as int) == split_at_commas(line@.take(j as int)).last(),
        decreases len - j,
    {
        let b = line[j];
        proof {
            lemma_split_push(line@.take(j as int), b);
            assert(line@.take(j + 1) =~= line@.take(j as int).push(line@[j as int]));
        }
        if b == COMMA {
            bounds.push((start, j));
            start = j + 1;
            proof {
                assert(line@.subrange(start as int, j + 1) =~= Seq::<u8>::empty());
            }
        } else {
            proof {
                assert(line@.subrange(start as int, j + 1) =~= line@.subrange(
                    start as int,
                    j as int,
                ).push(line@[j as int]));
            }
        }
        j += 1;
    }
    proof {
        assert(line@.take(len as int) =~= line@);
    }
    bounds.push((start, len));
    bounds
}

/// Why a data line was rejected. Any of these is fatal to a build: a table
/// missing a record would silently mis-answer queries at run time.
#[derive(Clone, Copy, Debug, PartialEq, Eq, Structural)]
pub enum ParseError {
    /// The first field is not a decimal integer in `i32` range.
    BadPointId,
    /// The line has fewer than four fields.
    MissingEastingShift,
    /// The line has fewer than five fields.
    MissingNorthingShift,
    /// The line has fewer than six fields.
    MissingHeightShift,
    /// The fourth field is not a decimal shift value.
    BadEastingShift,
    /// The fifth field is not a decimal shift value.
    BadNorthingShift,
    /// The sixth field is not a decimal shift value.
    BadHeightShift,
}

/// What parsing a data line yields: the record, or the first reason for
/// rejecting the line, checking the identifier first and then the remaining
/// fields in line order.
pub open spec fn spec_parse_line(s: Seq<u8>) -> Result<ShiftRecord, ParseError> {
    let fs = split_at_commas(s);
    if !valid_id_field(fs[0]) {
        Err(ParseError::BadPointId)
    } else if fs.len() < 4 {
        Err(ParseError::MissingEastingShift)
    } else if fs.len() < 5 {
        Err(ParseError::MissingNorthingShift)
    } else if fs.len() < 6 {
        Err(ParseError::MissingHeightShift)
    } else if !valid_shift_field(fs[3]) {
        Err(ParseError::BadEastingShift)
    } else if !valid_shift_field(fs[4]) {
        Err(ParseError::BadNorthingShift)
    } else if !valid_shift_field(fs[5]) {
        Err(ParseError::BadHeightShift)
    } else {
        Ok(
            ShiftRecord {
                id: int_field_value(fs[0]) as i32,
                easting_shift: Shift { thousandths: shift_field_value(fs[3]) as i64 },
                northing_shift: Shift { thousandths: shift_field_value(fs[4]) as i64 },
                height_shift: Shift { thousandths: shift_field_value(fs[5]) as i64 },
            },
        )
    }
}

/// Parse one data line: the identifier from the first field, the three
/// shifts from the fourth to sixth fields; the second and third fields (the
/// absolute position of the cell) are read past and discarded.
pub fn parse_line(line: &[u8]) -> (r: Result<ShiftRecord, ParseError>)
    ensures
        r == spec_parse_line(line@),
{
    proof {
        lemma_split_len_pos(line@);
    }
    let bounds = split_bounds(line);
    let b0 = bounds[0];
    let id = match parse_i32(vstd::slice::slice_subrange(line, b0.0, b0.1)) {
        Some(v) => v,
        None => {
            return Err(ParseError::BadPointId);
        },
    };
    if bounds.len() < 4 {
        return Err(ParseError::MissingEastingShift);
    }
    if bounds.len() < 5 {
        return Err(ParseError::MissingNorthingShift);
    }
    if bounds.len() < 6 {
        return Err(ParseError::MissingHeightShift);
    }
    let b3 = bounds[3];
    let easting_shift = match parse_shift(vstd::slice::slice_subrange(line, b3.0, b3.1)) {
        Some(v) => v,
        None => {
            return Err(ParseError::BadEastingShift);
        },
    };
    let b4 = bounds[4];
    let northing_shift = match parse_shift(vstd::slice::slice_subrange(line, b4.0, b4.1)) {
        Some(v) => v,
        None => {
            return Err(ParseError::BadNorthingShift);
        },
    };
    let b5 = bounds[5];
    let height_shift = match parse_shift(vstd::slice::slice_subrange(line, b5.0, b5.1)) {
        Some(v) => v,
        None => {
            return Err(ParseError::BadHeightShift);
        },
    };
    Ok(ShiftRecord { id, easting_shift, northing_shift, height_shift })
}

/// Parse a record identifier field, exactly as `i32` reads decimal text: an
/// optional sign, then at least one digit, value within the `i32` range.
pub fn parse_i32(s: &[u8]) -> (r: Option<i32>)
    ensures
        r.is_some() <==> valid_id_field(s@),
        r.is_some() ==> r.unwrap() as int == int_field_value(s@),
{
    let ghost t = digits_part(s@);
    let len = s.len();
    let mut i: usize = 0;
    let mut neg = false;
    if len > 0 && (s[0] == PLUS || s[0] == MINUS) {
        neg = s[0] == MINUS;
        i = 1;
    }
    proof {
        assert(t =~= s@.subrange(i as int, len as int));
        assert(neg == is_neg(s@));
    }
    if i == len {
        return None;
    }
    let mut acc: u64 = 0;
    let mut j: usize = i;
    while j < len
        invariant
            i <= j <= len,
            len == s@.len(),
            t =~= s@.subrange(i as int, len as int),
            neg == is_neg(s@),
            t == digits_part(s@),
            all_digits(t.take(j - i)),
            acc == digits_val(t.take(j - i)),
            acc <= 2147483648,
        decreases len - j,
    {
        let b = s[j];
        proof {
            assert(t[j - i] == s@[j as int]);
            assert(t.take(j + 1 - i).drop_last() =~= t.take(j - i));
        }
        if b < 48 || b > 57 {
            assert(!all_digits(t));
            return None;
        }
        let acc2: u64 = acc * 10 + (b - 48) as u64;
        assert(acc2 == digits_val(t.take(j + 1 - i)));
        if acc2 > 2147483648 {
            assert(!valid_id_field(s@)) by {
                if all_digits(t) {
                    lemma_digits_val_prefix_le(t, j + 1 - i);
                }
            }
            return None;
        }
        acc = acc2;
        j += 1;
    }
    proof {
        assert(t.take(j - i) =~= t);
    }
    if neg {
        let v: i64 = -(acc as i64);
        Some(v as i32)
    } else {
        if acc > 2147483647 {
            return None;
        }
        Some(acc as i32)
    }
}

/// Parse a shift field into an exact count of thousandths.
pub fn parse_shift(s: &[u8]) -> (r: Option<Shift>)
    ensures
        r.is_some() <==> valid_shift_field(s@),
        r.is_some() ==> r.unwrap().thousandths as int == shift_field_value(s@),
{
    let ghost t = digits_part(s@);
    let ghost dot = find_byte(t, DOT);
    proof {
        lemma_find_byte(t, DOT);
    }
    let len = s.len();
    let mut i: usize = 0;
    let mut neg = false;
    if len > 0 && (s[0] == PLUS || s[0] == MINUS) {
        neg = s[0] == MINUS;
        i = 1;
    }
    proof {
        assert(t =~= s@.subrange(i as int, len as int));
        assert(neg == is_neg(s@));
    }
    let mut acc: u64 = 0;
    let mut j: usize = i;
    while j < len && s[j] != DOT
        invariant
            i <= j <= len,
            len == s@.len(),
            t =~= s@.subrange(i as int, len as int),
            neg == is_neg(s@),
            t == digits_part(s@),
            dot == find_byte(t, DOT),
            0 <= dot <= t.len(),
            dot < t.len() ==> t[dot] == DOT,
            forall|m: int| 0 <= m < dot ==> t[m] != DOT,
            dot >= j - i,
            all_digits(t.take(j - i)),
            acc == digits_val(t.take(j - i)),
            acc <= 9223372036854775,
        decreases len - j,
    {
        let b = s[j];
        proof {
            assert(t[j - i] == s@[j as int]);
            assert(t.take(j + 1 - i).drop_last() =~= t.take(j - i));
        }
        if b < 48 || b > 57 {
            // The byte sits before the first decimal point, so it belongs to
            // the integer digits, which must all be digits.
            assert(dot > j - i);
            assert(int_digits(s@)[j - i] == t[j - i]);
            assert(!all_digits(int_digits(s@)));
            return None;
        }
        proof {
            assert(t[j - i] != DOT);
            assert(dot > j - i);
        }
        let acc2: u64 = acc * 10 + (b - 48) as u64;
        assert(acc2 == digits_val(t.take(j + 1 - i)));
        if acc2 > 9223372036854775 {
            assert(!valid_shift_field(s@)) by {
                if valid_shift_field(s@) {
                    assert(t.take(j + 1 - i) =~= int_digits(s@).take(j + 1 - i));
                    lemma_digits_val_prefix_le(int_digits(s@), j + 1 - i);
                    lemma_digits_val_nonneg(frac_digits(s@));
                }
            }
            return None;
        }
        acc = acc2;
        j += 1;
    }
    if j == i {
        // Empty integer part: the field begins with its decimal point or has
        // no digits at all.
        assert(int_digits(s@).len() == 0);
        return None;
    }
    proof {
        if j == len {
            assert(dot == t.len());
        } else {
            assert(t[j - i] == s@[j as int]);
            assert(dot == j - i);
        }
        assert(int_digits(s@) =~= t.take(j - i));
    }
    let mut frac: u64 = 0;
    let mut nfrac: usize = 0;
    if j < len {
        // s[j] is the decimal point; read one to three fraction digits.
        j += 1;
        let fstart = j;
        let ghost f = frac_digits(s@);
        proof {
            assert(f =~= t.subrange(dot + 1, t.len() as int));
            assert(f.len() == len - fstart);
        }
        while j < len
            invariant
                fstart <= j <= len,
                len == s@.len(),
                fstart >= 1,
                t == digits_part(s@),
                f == frac_digits(s@),
                f =~= s@.subrange(fstart as int, len as int),
                f.len() == len - fstart,
                nfrac == j - fstart,
                nfrac <= 3,
                all_digits(f.take(nfrac as int)),
                frac == digits_val(f.take(nfrac as int)),
                nfrac == 0 ==> frac == 0,
                nfrac == 1 ==> frac <= 9,
                nfrac == 2 ==> frac <= 99,
                frac <= 999,
            decreases len - j,
        {
            let b = s[j];
            proof {
                assert(f[j - fstart] == s@[j as int]);
                assert(f.take(j + 1 - fstart).drop_last() =~= f.take(j - fstart));
            }
            if b < 48 || b > 57 {
                assert(!all_digits(f));
                return None;
            }
            if nfrac == 3 {
                // A fourth fraction digit: finer than the dataset's stated
                // resolution, rejected.
                assert(f.len() >= 4);
                return None;
            }
            frac = frac * 10 + (b - 48) as u64;
            nfrac += 1;
            j += 1;
            assert(frac == digits_val(f.take(nfrac as int)));
        }
        if nfrac == 0 {
            // A decimal point with nothing after it.
            assert(frac_digits(s@).len() == 0);
            return None;
        }
        proof {
            assert(f.take(nfrac as int) =~= f);
        }
    } else {
        proof {
            assert(frac_digits(s@) =~= Seq::<u8>::empty());
        }
    }
    let scale: u64 = if nfrac == 1 {
        100
    } else if nfrac == 2 {
        10
    } else {
        1
    };
    assert(scale == frac_scale(frac_digits(s@).len() as int));
    let mag: u64 = acc * 1000 + frac * scale;
    assert(mag == shift_field_magnitude(s@));
    if mag > 9223372036854775807 {
        return None;
    }
    let v: i64 = if neg {
        -(mag as i64)
    } else {
        mag as i64
    };
    Some(Shift { thousandths: v })
}

} // verus!
