//! Reading the digits of a number token into a value.
use vstd::prelude::*;
use crate::data::{Data, DataView, Decimal};
use crate::error::{Error, ErrorView, text_of};

verus! {

pub open spec fn is_digit(c: char) -> bool {
    '0' <= c && c <= '9'
}

pub open spec fn digit_value(c: char) -> int {
    c as int - '0' as int
}

pub open spec fn all_digits(s: Seq<char>) -> bool {
    forall|i: int| 0 <= i < s.len() ==> is_digit(#[trigger] s[i])
}

/// The value of a sequence of decimal digits, most significant first.
pub open spec fn decimal_value(s: Seq<char>) -> int
    decreases s.len(),
{
    if s.len() == 0 {
        0
    } else {
        decimal_value(s.drop_last()) * 10 + digit_value(s.last())
    }
}

/// The integer written by `s`: an optional `+` or `-` followed by at least
/// one decimal digit and nothing else.
pub open spec fn written_integer(s: Seq<char>) -> Option<int> {
    if s.len() > 0 && (s[0] == '+' || s[0] == '-') {
        let digits = s.drop_first();
        if digits.len() > 0 && all_digits(digits) {
            Some(
                if s[0] == '-' {
                    -decimal_value(digits)
                } else {
                    decimal_value(digits)
                },
            )
        } else {
            None
        }
    } else if s.len() > 0 && all_digits(s) {
        Some(decimal_value(s))
    } else {
        None
    }
}

/// The 64-bit integer written by `s`, if it is written correctly and in range.
pub open spec fn spec_parse_i64(s: Seq<char>) -> Option<i64> {
    match written_integer(s) {
        Some(v) => if i64::MIN <= v <= i64::MAX {
            Some(v as i64)
        } else {
            None
        },
        None => None,
    }
}

/// The error for a fractional part or an integer part of a decimal that
/// does not read as an integer.
pub open spec fn invalid_decimal() -> ErrorView {
    ErrorView::InvalidNumber(DataView::Identifier("decimal"@))
}

/// What `parse_number` gives for the integer digits `source`, the digits
/// after the point `float_source` (when the number has a point) and the sign.
pub open spec fn spec_parse_number(
    source: Seq<char>,
    float_source: Option<Seq<char>>,
    negative: bool,
) -> Result<Option<DataView>, ErrorView> {
    match float_source {
        Some(f) => match spec_parse_i64(f) {
            Some(fraction) => match spec_parse_i64(source) {
                Some(whole) => Ok(
                    Some(
                        DataView::Float(
                            Decimal {
                                negative: negative,
                                whole: whole,
                                fraction: fraction,
                                digits: f.len() as usize,
                            },
                        ),
                    ),
                ),
                None => Err(invalid_decimal()),
            },
            None => Err(invalid_decimal()),
        },
        None => match spec_parse_i64(source) {
            Some(v) => Ok(
                Some(
                    DataView::Integer(
                        if negative {
                            -v
                        } else {
                            v as int
                        },
                    ),
                ),
            ),
            None => Ok(None),
        },
    }
}

pub open spec fn text_option(o: Option<&Vec<char>>) -> Option<Seq<char>> {
    match o {
        Some(v) => Some(v@),
        None => None,
    }
}

proof fn lemma_decimal_value_nonneg(s: Seq<char>)
    requires
        all_digits(s),
    ensures
        decimal_value(s) >= 0,
    decreases s.len(),
{
    if s.len() > 0 {
        assert(all_digits(s.drop_last())) by {
            assert forall|i: int| 0 <= i < s.drop_last().len() implies is_digit(
                #[trigger] s.drop_last()[i],
            ) by {
                assert(s.drop_last()[i] == s[i]);
            }
        }
        lemma_decimal_value_nonneg(s.drop_last());
        assert(is_digit(s[s.len() - 1]));
    }
}

/// A longer run of digits is worth at least as much as any prefix of it.
proof fn lemma_decimal_value_prefix(s: Seq<char>, j: int)
    requires
        all_digits(s),
        0 <= j <= s.len(),
    ensures
        decimal_value(s.take(j)) <= decimal_value(s),
    decreases s.len() - j,
{
    if j < s.len() {
        let t = s.take(j + 1);
        assert(t.drop_last() =~= s.take(j));
        assert(all_digits(t.drop_last())) by {
            assert forall|i: int| 0 <= i < t.drop_last().len() implies is_digit(
                #[trigger] t.drop_last()[i],
            ) by {
                assert(t.drop_last()[i] == s[i]);
            }
        }
        lemma_decimal_value_nonneg(t.drop_last());
        assert(is_digit(s[j]));
        assert(decimal_value(t) >= decimal_value(s.take(j)));
        lemma_decimal_value_prefix(s, j + 1);
    } else {
        assert(s.take(j) =~= s);
    }
}

/// The 64-bit integer written by `s`: an optional sign and decimal digits,
/// as Rust's own integer syntax reads them.
pub fn parse_i64(s: &Vec<char>) -> (r: Option<i64>)
    ensures
        r == spec_parse_i64(s@),
{
    let n = s.len();
    if n == 0 {
        return None;
    }
    let negative = s[0] == '-';
    let start: usize = if s[0] == '-' || s[0] == '+' {
        1
    } else {
        0
    };
    if start == n {
        return None;
    }
    let ghost digits = s@.subrange(start as int, n as int);
    assert(start == 1 ==> digits =~= s@.drop_first());
    assert(start == 0 ==> digits =~= s@);
    let mut acc: i64 = 0;
    let mut i: usize = start;
    while i < n
        invariant
            n == s@.len(),
            start <= i <= n,
            start == 0 || start == 1,
            digits == s@.subrange(start as int, n as int),
            start == 1 ==> digits == s@.drop_first(),
            start == 0 ==> digits == s@,
            start < n,
            negative == (s@[0] == '-'),
            start == 1 <==> (s@[0] == '-' || s@[0] == '+'),
            all_digits(digits.take(i - start)),
            acc as int == if negative {
                -decimal_value(digits.take(i - start))
            } else {
                decimal_value(digits.take(i - start))
            },
        decreases n - i,
    {
        let c = s[i];
        if !('0' <= c && c <= '9') {
            assert(digits[i - start] == c);
            assert(!all_digits(digits));
            return None;
        }
        let d = (c as u32 - '0' as u32) as i128;
        let next: i128 = if negative {
            acc as i128 * 10 - d
        } else {
            acc as i128 * 10 + d
        };
        let ghost k = (i - start) as int;
        assert(digits.take(k + 1).drop_last() =~= digits.take(k));
        assert(digits.take(k + 1).last() == c);
        assert(all_digits(digits.take(k + 1))) by {
            assert forall|j: int| 0 <= j < k + 1 implies is_digit(#[trigger] digits.take(k + 1)[j]) by {
                if j < k {
                    assert(digits.take(k + 1)[j] == digits.take(k)[j]);
                }
            }
        }
        if next < i64::MIN as i128 || next > i64::MAX as i128 {
            proof {
                lemma_decimal_value_nonneg(digits.take(k));
                assert(decimal_value(digits.take(k + 1)) == decimal_value(digits.take(k)) * 10
                    + digit_value(c));
                assert(d == digit_value(c));
                if all_digits(digits) {
                    lemma_decimal_value_prefix(digits, k + 1);
                    assert(negative ==> next == -decimal_value(digits.take(k + 1)));
                    assert(!negative ==> next == decimal_value(digits.take(k + 1)));
                    assert(written_integer(s@) == Some(
                        if negative { -decimal_value(digits) } else { decimal_value(digits) },
                    ));
                    assert(decimal_value(digits.take(k + 1)) <= decimal_value(digits));
                    assert(spec_parse_i64(s@) is None);
                } else {
                    assert(written_integer(s@) is None);
                }
            }
            return None;
        }
        acc = next as i64;
        i = i + 1;
    }
    assert(digits.take(n - start) =~= digits);
    Some(acc)
}

/// The value of a number token: `source` holds the digits before the point,
/// `float_source` the digits after it when there is one, and `negative`
/// whether a minus sign came first.
///
/// A number with a point gives a [`Decimal`] that keeps the digits exactly.
/// A number without a point whose digits do not read as a 64-bit integer
/// gives no value at all; with a point, either part not reading as one is
/// an `InvalidNumber` error.
pub fn parse_number(source: &Vec<char>, float_source: Option<&Vec<char>>, negative: bool) -> (r:
    Result<Option<Data>, Error>)
    requires
        float_source is None && negative ==> spec_parse_i64(source@) != Some(i64::MIN),
    ensures
        match r {
            Ok(Some(d)) => spec_parse_number(source@, text_option(float_source), negative) == Ok::<
                Option<DataView>,
                ErrorView,
            >(Some(d@)),
            Ok(None) => spec_parse_number(source@, text_option(float_source), negative) == Ok::<
                Option<DataView>,
                ErrorView,
            >(None),
            Err(e) => spec_parse_number(source@, text_option(float_source), negative) == Err::<
                Option<DataView>,
                ErrorView,
            >(e@),
        },
{
    let value = parse_i64(source);
    if let Some(float_source) = float_source {
        match parse_i64(float_source) {
            Some(float_value) => {
                match value {
                    Some(value) => {
                        return Ok(
                            Some(
                                Data::Float(
                                    Decimal {
                                        negative: negative,
                                        whole: value,
                                        fraction: float_value,
                                        digits: float_source.len(),
                                    },
                                ),
                            ),
                        );
                    },
                    None => {
                        return Err(Error::InvalidNumber(Data::Identifier(text_of("decimal"))));
                    },
                }
            },
            None => {
                return Err(Error::InvalidNumber(Data::Identifier(text_of("decimal"))));
            },
        }
    }
    match value {
        Some(value) => {
            if negative {
                Ok(Some(Data::Integer(-value)))
            } else {
                Ok(Some(Data::Integer(value)))
            }
        },
        None => Ok(None),
    }
}


/// The digit character for a value below ten.
pub open spec fn digit_char(d: nat) -> char {
    (('0' as int) + d) as char
}

/// The decimal digits of `n`, most significant first, without leading zeros.
pub open spec fn decimal_digits(n: nat) -> Seq<char>
    decreases n,
{
    if n < 10 {
        seq![digit_char(n)]
    } else {
        decimal_digits(n / 10).push(digit_char(n % 10))
    }
}

proof fn lemma_decimal_digits(n: nat)
    ensures
        all_digits(decimal_digits(n)),
        decimal_digits(n).len() > 0,
        decimal_value(decimal_digits(n)) == n,
    decreases n,
{
    if n < 10 {
        let s = decimal_digits(n);
        assert(s.drop_last() =~= Seq::<char>::empty());
        assert(digit_char(n) as int == '0' as int + n);
        assert(decimal_value(s.drop_last()) == 0);
        assert(s.last() == digit_char(n));
    } else {
        lemma_decimal_digits(n / 10);
        let s = decimal_digits(n);
        assert(s.drop_last() =~= decimal_digits(n / 10));
        assert(digit_char(n % 10) as int == '0' as int + n % 10);
        assert(n == (n / 10) * 10 + n % 10);
        assert(s.last() == digit_char(n % 10));
        assert(decimal_value(s) == decimal_value(s.drop_last()) * 10 + digit_value(s.last()));
        assert forall|i: int| 0 <= i < s.len() implies is_digit(#[trigger] s[i]) by {
            if i < s.len() - 1 {
                assert(s[i] == decimal_digits(n / 10)[i]);
            }
        }
    }
}

/// Reading back: the decimal digits of a number in range, optionally after
/// a sign, read as that number.
pub proof fn law_parse_decimal_digits(n: nat)
    ensures
        n <= i64::MAX ==> spec_parse_i64(decimal_digits(n)) == Some(n as i64),
        n <= i64::MAX ==> spec_parse_i64(seq!['+'] + decimal_digits(n)) == Some(n as i64),
        n <= i64::MAX + 1 ==> spec_parse_i64(seq!['-'] + decimal_digits(n)) == Some(
            (-n) as i64,
        ),
        n > i64::MAX ==> spec_parse_i64(decimal_digits(n)) is None,
{
    lemma_decimal_digits(n);
    let d = decimal_digits(n);
    assert((seq!['+'] + d).drop_first() =~= d);
    assert((seq!['-'] + d).drop_first() =~= d);
    assert(d[0] != '+' && d[0] != '-') by {
        assert(is_digit(d[0]));
    }
}

/// The sign of an integer only negates it: with `negative` set, a number
/// without a point reads as the negation of what it reads as without.
pub proof fn law_negative_negates(source: Seq<char>)
    ensures
        spec_parse_number(source, None, true) == match spec_parse_number(source, None, false) {
            Ok(Some(DataView::Integer(v))) => Ok::<Option<DataView>, ErrorView>(
                Some(DataView::Integer(-v)),
            ),
            other => other,
        },
{
}


/// The sign of a decimal only marks it negative: a number with a point
/// reads, with `negative` set, as the same decimal as without it but with
/// its sign flag set, whatever its whole part (zero included); and the
/// decimal read always carries the sign flag it was given, the whole part
/// and the fraction as written and the count of digits after the point.
pub proof fn law_decimal_sign(source: Seq<char>, float_source: Seq<char>, negative: bool)
    ensures
        spec_parse_number(source, Some(float_source), true) == match spec_parse_number(
            source,
            Some(float_source),
            false,
        ) {
            Ok(Some(DataView::Float(d))) => Ok::<Option<DataView>, ErrorView>(
                Some(
                    DataView::Float(
                        Decimal {
                            negative: true,
                            whole: d.whole,
                            fraction: d.fraction,
                            digits: d.digits,
                        },
                    ),
                ),
            ),
            other => other,
        },
        spec_parse_number(source, Some(float_source), negative) matches Ok(Some(v)) ==> (
        v matches DataView::Float(d) && d.negative == negative && Some(d.whole)
            == spec_parse_i64(source) && Some(d.fraction) == spec_parse_i64(float_source)
            && d.digits == float_source.len() as usize),
{
}

} // verus!
