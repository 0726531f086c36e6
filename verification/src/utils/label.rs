use vstd::prelude::*;

verus! {

/// The characters `0` to `9`.
pub open spec fn is_digit(c: char) -> bool {
    0x30 <= c as u32 <= 0x39
}

/// The number that a sequence of decimal digits denotes.
pub open spec fn digits_value(digits: Seq<char>) -> nat
    decreases digits.len(),
{
    if digits.len() == 0 {
        0
    } else {
        digits_value(digits.drop_last()) * 10 + (digits.last() as u32 - 0x30) as nat
    }
}

/// Every character of `s` is a decimal digit.
pub open spec fn all_digits(s: Seq<char>) -> bool {
    forall|i: int| 0 <= i < s.len() ==> is_digit(#[trigger] s[i])
}

/// The character `-`.
pub open spec fn is_minus(c: char) -> bool {
    c as u32 == 0x2D
}

/// The character `+`.
pub open spec fn is_plus(c: char) -> bool {
    c as u32 == 0x2B
}

/// The digits of a decimal numeral: what follows its sign, if it has one.
pub open spec fn numeral_digits(s: Seq<char>) -> Seq<char> {
    if s.len() > 0 && (is_minus(s[0]) || is_plus(s[0])) {
        s.subrange(1, s.len() as int)
    } else {
        s
    }
}

/// The 32-bit integer that a decimal numeral denotes: an optional sign
/// followed by at least one digit and nothing else, with a value in range.
pub open spec fn parsed_label(s: Seq<char>) -> Option<i32> {
    let digits = numeral_digits(s);
    let value = if s.len() > 0 && is_minus(s[0]) {
        -(digits_value(digits) as int)
    } else {
        digits_value(digits) as int
    };
    if digits.len() > 0 && all_digits(digits) && i32::MIN <= value <= i32::MAX {
        Some(value as i32)
    } else {
        None
    }
}

/// Reads a label: a decimal numeral that fits in 32 bits. Anything else
/// gives `None`.
pub fn parse_label(field: &str) -> (label: Option<i32>)
    ensures
        label == parsed_label(field@),
{
    let n = field.unicode_len();
    let ghost digits = numeral_digits(field@);
    let ghost offset: int = field@.len() - digits.len();
    let mut negative = false;
    let mut signed = false;
    let mut valid = true;
    let mut large = false;
    let mut value: u64 = 0;
    let mut i: usize = 0;
    proof {
        assert(digits.take(0) =~= Seq::empty());
    }
    for c in it: field.chars()
        invariant
            i == it.index(),
            it.seq() == field@,
            n == field@.len(),
            digits == numeral_digits(field@),
            offset == field@.len() - digits.len(),
            i > 0 ==> signed == (offset == 1),
            i > 0 ==> negative == is_minus(field@[0]),
            i == 0 ==> !negative && !signed,
            i >= offset ==> {
                &&& valid == all_digits(digits.take(i - offset))
                &&& valid && !large ==> value == digits_value(digits.take(i - offset)) && value
                    <= 0x8000_0000
                &&& valid && large ==> digits_value(digits.take(i - offset)) > 0x8000_0000
            },
            i < offset ==> valid && !large && value == 0,
    {
        let code = c as u32;
        if i == 0 && (code == 0x2D || code == 0x2B) {
            negative = code == 0x2D;
            signed = true;
        } else {
            proof {
                let k = i - offset;
                assert(digits[k] == c);
                assert(digits.take(k + 1).drop_last() =~= digits.take(k));
                assert(digits.take(k + 1).last() == c);
                if all_digits(digits.take(k + 1)) {
                    assert forall|j: int| 0 <= j < k implies is_digit(
                        #[trigger] digits.take(k)[j],
                    ) by {
                        assert(digits.take(k + 1)[j] == digits.take(k)[j]);
                    }
                } else if is_digit(c) {
                    if all_digits(digits.take(k)) {
                        assert forall|j: int| 0 <= j < k + 1 implies is_digit(
                            #[trigger] digits.take(k + 1)[j],
                        ) by {
                            if j < k {
                                assert(digits.take(k + 1)[j] == digits.take(k)[j]);
                            }
                        }
                    }
                }
            }
            if 0x30 <= code && code <= 0x39 {
                if valid && !large {
                    value = value * 10 + (code - 0x30) as u64;
                    if value > 0x8000_0000 {
                        large = true;
                    }
                }
            } else {
                valid = false;
                proof {
                    assert(!is_digit(digits.take(i - offset + 1)[i - offset]));
                }
            }
        }
        i += 1;
    }
    proof {
        assert(digits.take(digits.len() as int) =~= digits);
        if i < offset {
            assert(digits.len() == 0);
        }
    }
    if i == 0 || (signed && i == 1) || !valid || large {
        proof {
            if valid && large {
                assert(digits_value(digits) > 0x8000_0000);
            }
        }
        return None;
    }
    if negative {
        if value == 0x8000_0000 {
            Some(i32::MIN)
        } else {
            Some(-(value as i32))
        }
    } else if value == 0x8000_0000 {
        None
    } else {
        Some(value as i32)
    }
}

} // verus!
