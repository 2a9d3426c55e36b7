//! Decoding of size strings such as `1G`, `512M` or `1024K`: a decimal
//! number followed by a one-letter binary suffix, case-insensitive.

use vstd::prelude::*;

use crate::BenchError;

verus! {

/// Whether `c` is a decimal digit.
pub open spec fn is_digit(c: char) -> bool {
    48 <= c as int && c as int <= 57
}

/// The value of a decimal digit.
pub open spec fn digit_val(c: char) -> int {
    c as int - 48
}

/// The number a digit sequence denotes, most significant digit first.
pub open spec fn digits_val(s: Seq<char>) -> int
    decreases s.len(),
{
    if s.len() == 0 {
        0
    } else {
        digits_val(s.drop_last()) * 10 + digit_val(s.last())
    }
}

/// A valid number part: an optional leading `+`, then at least one digit
/// and nothing else.
pub open spec fn num_part_wf(s: Seq<char>) -> bool {
    if s.len() >= 1 && s[0] == '+' {
        s.len() >= 2 && (forall|i: int| 1 <= i < s.len() ==> is_digit(#[trigger] s[i]))
    } else {
        s.len() >= 1 && (forall|i: int| 0 <= i < s.len() ==> is_digit(#[trigger] s[i]))
    }
}

/// The digits of a number part, with a leading `+` removed.
pub open spec fn num_digits(s: Seq<char>) -> Seq<char> {
    if s.len() >= 1 && s[0] == '+' {
        s.skip(1)
    } else {
        s
    }
}

/// The byte multiplier a size suffix denotes; zero marks an invalid suffix.
pub open spec fn suffix_mult(c: char) -> int {
    if c == 'K' || c == 'k' {
        1024
    } else if c == 'M' || c == 'm' {
        1048576
    } else if c == 'G' || c == 'g' {
        1073741824
    } else {
        0
    }
}

/// A sequence of digits denotes a non-negative number.
proof fn lemma_digits_val_nonneg(s: Seq<char>)
    requires
        forall|i: int| 0 <= i < s.len() ==> is_digit(#[trigger] s[i]),
    ensures
        digits_val(s) >= 0,
    decreases s.len(),
{
    if s.len() > 0 {
        lemma_digits_val_nonneg(s.drop_last());
    }
}

/// Decodes a size string: a decimal number (optionally signed with `+`)
/// followed by the suffix `K`, `M` or `G` in either case. Returns the
/// denoted byte count; a malformed or too-large number is `InvalidNumber`,
/// a bad suffix `InvalidSuffix`, and a byte count beyond the machine's
/// address range `SizeOverflow`.
pub fn parse_size(size_str: &str) -> (r: Result<usize, BenchError>)
    requires
        size_str@.len() >= 1,
    ensures
        ({
            let s = size_str@;
            let prefix = s.take(s.len() - 1);
            let last = s[s.len() - 1];
            let value = digits_val(num_digits(prefix));
            &&& (r is Ok <==> num_part_wf(prefix) && value <= usize::MAX && suffix_mult(last) != 0
                && value * suffix_mult(last) <= usize::MAX)
            &&& (r matches Ok(v) ==> v == value * suffix_mult(last))
            &&& (!(num_part_wf(prefix) && value <= usize::MAX) ==> r == Err::<usize, BenchError>(
                BenchError::InvalidNumber,
            ))
            &&& (num_part_wf(prefix) && value <= usize::MAX && suffix_mult(last) == 0 ==> r == Err::<
                usize,
                BenchError,
            >(BenchError::InvalidSuffix))
            &&& (num_part_wf(prefix) && value <= usize::MAX && suffix_mult(last) != 0 && value
                * suffix_mult(last) > usize::MAX ==> r == Err::<usize, BenchError>(
                BenchError::SizeOverflow,
            ))
        }),
{
    let n = size_str.unicode_len();
    let ghost s = size_str@;
    let ghost prefix = s.take(s.len() - 1);
    let mut i: usize = 0;
    if size_str.get_char(0) == '+' {
        i = 1;
    }
    let ghost digit_start = i as int;
    if i >= n - 1 {
        proof {
            assert(!num_part_wf(prefix));
        }
        return Err(BenchError::InvalidNumber);
    }
    let mut acc: u128 = 0;
    let mut overflow: bool = false;
    while i < n - 1
        invariant
            size_str@ == s,
            n == s.len(),
            prefix == s.take(s.len() - 1),
            digit_start <= i <= n - 1,
            n - 1 >= 1,
            digit_start == 0 || digit_start == 1,
            digit_start == 0 ==> s[0] != '+',
            digit_start == 1 ==> s[0] == '+',
            forall|j: int| digit_start <= j < i ==> is_digit(#[trigger] s[j]),
            !overflow ==> acc == digits_val(s.subrange(digit_start, i as int)) && acc
                <= usize::MAX,
            overflow ==> digits_val(s.subrange(digit_start, i as int)) > usize::MAX,
        decreases n - i,
    {
        let c = size_str.get_char(i);
        let code = c as u32;
        if code < 48 || code > 57 {
            proof {
                assert(c as int == code as int);
                assert(!is_digit(s[i as int]));
                assert(!num_part_wf(prefix)) by {
                    assert(prefix[i as int] == s[i as int]);
                }
            }
            return Err(BenchError::InvalidNumber);
        }
        let d: u128 = (code - 48) as u128;
        let ghost seen = s.subrange(digit_start, i as int);
        let ghost seen1 = s.subrange(digit_start, i as int + 1);
        proof {
            assert(seen1.drop_last() =~= seen);
            assert(seen1.last() == s[i as int]);
            assert(digits_val(seen1) == digits_val(seen) * 10 + digit_val(s[i as int]));
            assert forall|j: int| digit_start <= j < seen1.len() + digit_start implies is_digit(
                #[trigger] s[j],
            ) by {}
            lemma_digits_val_nonneg(seen);
        }
        if overflow {
            proof {
                assert(digits_val(seen) * 10 >= digits_val(seen)) by (nonlinear_arith)
                    requires
                        digits_val(seen) >= 0,
                ;
            }
        } else {
            let t: u128 = acc * 10 + d;
            if t > (usize::MAX as u128) {
                overflow = true;
            } else {
                acc = t;
            }
        }
        i += 1;
    }
    let ghost digits = s.subrange(digit_start, s.len() - 1);
    proof {
        assert(digits =~= num_digits(prefix)) by {
            if digit_start == 1 {
                assert(prefix.skip(1) =~= s.subrange(1, s.len() - 1));
            } else {
                assert(prefix =~= s.subrange(0, s.len() - 1));
            }
        }
        assert(num_part_wf(prefix)) by {
            assert forall|j: int| digit_start <= j < prefix.len() implies is_digit(
                #[trigger] prefix[j],
            ) by {
                assert(prefix[j] == s[j]);
            }
        }
    }
    if overflow {
        return Err(BenchError::InvalidNumber);
    }
    let last = size_str.get_char(n - 1);
    let mult: u128 = if last == 'K' || last == 'k' {
        1024
    } else if last == 'M' || last == 'm' {
        1048576
    } else if last == 'G' || last == 'g' {
        1073741824
    } else {
        return Err(BenchError::InvalidSuffix);
    };
    proof {
        assert(acc * mult < u128::MAX) by (nonlinear_arith)
            requires
                acc <= u64::MAX && mult <= 0x4000_0000,
        ;
        lemma_digits_val_nonneg(digits);
    }
    let value: u128 = acc * mult;
    if value > (usize::MAX as u128) {
        return Err(BenchError::SizeOverflow);
    }
    Ok(value as usize)
}

} // verus!
