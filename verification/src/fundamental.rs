//! The scalar capability: a type that can be parsed from one leaf token of a
//! tensor literal.

use vstd::prelude::*;

verus! {

/// `+`
pub const PLUS: u8 = 43;

/// `-`
pub const MINUS: u8 = 45;

/// `0`
pub const ZERO: u8 = 48;

/// `9`
pub const NINE: u8 = 57;

pub open spec fn is_digit_byte(b: u8) -> bool {
    ZERO <= b && b <= NINE
}

pub open spec fn all_digit_bytes(s: Seq<u8>) -> bool {
    forall|i: int| 0 <= i < s.len() ==> is_digit_byte(#[trigger] s[i])
}

/// The number denoted by a sequence of decimal digit bytes, most significant
/// digit first.
pub open spec fn digits_value(s: Seq<u8>) -> int
    decreases s.len(),
{
    if s.len() == 0 {
        0
    } else {
        digits_value(s.drop_last()) * 10 + (s.last() - ZERO)
    }
}

/// The digit part of an integer token: everything after an optional leading
/// sign byte.
pub open spec fn token_digits(t: Seq<u8>) -> Seq<u8> {
    if t.len() > 0 && (t[0] == PLUS || t[0] == MINUS) {
        t.subrange(1, t.len() as int)
    } else {
        t
    }
}

/// Whether a token is an optionally signed, nonempty run of decimal digits.
pub open spec fn is_int_token(t: Seq<u8>) -> bool {
    token_digits(t).len() >= 1 && all_digit_bytes(token_digits(t))
}

/// The integer an integer token denotes.
pub open spec fn int_token_value(t: Seq<u8>) -> int {
    if t.len() > 0 && t[0] == MINUS {
        -digits_value(token_digits(t))
    } else {
        digits_value(token_digits(t))
    }
}

pub proof fn lemma_digits_value_nonneg(s: Seq<u8>)
    requires
        all_digit_bytes(s),
    ensures
        digits_value(s) >= 0,
    decreases s.len(),
{
    if s.len() > 0 {
        assert(all_digit_bytes(s.drop_last()));
        lemma_digits_value_nonneg(s.drop_last());
    }
}

/// The number denoted by a prefix of a digit run never exceeds the number
/// denoted by the whole run.
pub proof fn lemma_digits_value_prefix_le(s: Seq<u8>, k: int)
    requires
        all_digit_bytes(s),
        0 <= k <= s.len(),
    ensures
        digits_value(s.take(k)) <= digits_value(s),
    decreases s.len() - k,
{
    if k == s.len() {
        assert(s.take(k) =~= s);
    } else {
        assert(s.take(k + 1).drop_last() =~= s.take(k));
        assert(all_digit_bytes(s.take(k)));
        lemma_digits_value_nonneg(s.take(k));
        assert(digits_value(s.take(k + 1)) >= digits_value(s.take(k)));
        lemma_digits_value_prefix_le(s, k + 1);
    }
}

/// A scalar type for tensors: one that can be constructed by parsing a leaf
/// token of a literal, failing if the token is not a valid literal of the
/// type.
pub trait Field: Sized + Copy {
    /// The value this type's token grammar assigns to a token, if any.
    spec fn spec_parse(token: Seq<u8>) -> Option<Self>;

    /// Parse one leaf token.
    fn parse_token(token: &[u8]) -> (r: Option<Self>)
        ensures
            r == Self::spec_parse(token@),
    ;
}

impl Field for i64 {
    open spec fn spec_parse(token: Seq<u8>) -> Option<i64> {
        if is_int_token(token) && i64::MIN <= int_token_value(token)
            && int_token_value(token) <= i64::MAX {
            Some(int_token_value(token) as i64)
        } else {
            None
        }
    }

    #[verifier::loop_isolation(false)]
    fn parse_token(token: &[u8]) -> (r: Option<i64>) {
        let len = token.len();
        if len == 0 {
            return None;
        }
        let first = token[0];
        let negative = first == MINUS;
        let start: usize = if negative || first == PLUS {
            1
        } else {
            0
        };
        if start == len {
            return None;
        }
        let ghost digits = token_digits(token@);
        proof {
            assert(digits =~= token@.subrange(start as int, len as int));
        }
        // Accumulate the negated magnitude, so that `i64::MIN` is reachable.
        let mut acc: i64 = 0;
        let mut j = start;
        while j < len
            invariant
                start <= j <= len,
                forall|k: int| start <= k < j ==> is_digit_byte(#[trigger] token@[k]),
                acc == -digits_value(token@.subrange(start as int, j as int)),
                acc <= 0,
            decreases len - j,
        {
            let b = token[j];
            if b < ZERO || b > NINE {
                proof {
                    assert(digits[j - start] == token@[j as int]);
                    assert(!is_int_token(token@));
                }
                return None;
            }
            let ghost pre = token@.subrange(start as int, j as int);
            let ghost cur = token@.subrange(start as int, j as int + 1);
            proof {
                assert(cur.drop_last() =~= pre);
                assert(digits_value(cur) == digits_value(pre) * 10 + (token@[j as int] - ZERO));
            }
            let step = match acc.checked_mul(10) {
                Some(a) => match a.checked_sub((b - ZERO) as i64) {
                    Some(a2) => Some(a2),
                    None => None,
                },
                None => None,
            };
            match step {
                Some(a2) => {
                    acc = a2;
                },
                None => {
                    proof {
                        // The magnitude so far already exceeds the i64 range,
                        // and later digits can only grow it.
                        assert(digits_value(cur) > -(i64::MIN as int));
                        if is_int_token(token@) {
                            assert(cur =~= digits.take(j + 1 - start));
                            lemma_digits_value_prefix_le(digits, j + 1 - start);
                            assert(digits_value(digits) > -(i64::MIN as int));
                        }
                    }
                    return None;
                },
            }
            j = j + 1;
        }
        proof {
            assert(token@.subrange(start as int, len as int) =~= digits);
            assert(forall|k: int| 0 <= k < digits.len() ==> digits[k] == token@[k + start]);
            assert(is_int_token(token@));
            lemma_digits_value_nonneg(digits);
        }
        if negative {
            Some(acc)
        } else {
            if acc == i64::MIN {
                // Magnitude 2^63: representable only when negated.
                None
            } else {
                Some(-acc)
            }
        }
    }
}

impl Field for i32 {
    open spec fn spec_parse(token: Seq<u8>) -> Option<i32> {
        if is_int_token(token) && i32::MIN <= int_token_value(token)
            && int_token_value(token) <= i32::MAX {
            Some(int_token_value(token) as i32)
        } else {
            None
        }
    }

    fn parse_token(token: &[u8]) -> (r: Option<i32>) {
        match i64::parse_token(token) {
            Some(v) => {
                if i32::MIN as i64 <= v && v <= i32::MAX as i64 {
                    Some(v as i32)
                } else {
                    None
                }
            },
            None => None,
        }
    }
}

} // verus!
