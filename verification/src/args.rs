//! Numeric option values: a verified decimal parser for the string that
//! follows an option flag on the command line.

use vstd::prelude::*;
use vstd::string::StrSliceExecFns;

verus! {

/// An ASCII decimal digit.
pub open spec fn is_digit(c: char) -> bool {
    48 <= c as int <= 57
}

/// The numeric value of one digit.
pub open spec fn digit_val(c: char) -> int {
    c as int - 48
}

/// Every character of `s` is a decimal digit.
pub open spec fn all_digits(s: Seq<char>) -> bool {
    forall|i: int| 0 <= i < s.len() ==> is_digit(#[trigger] s[i])
}

/// The numeric value of a decimal digit string, most significant digit
/// first.
pub open spec fn digits_value(s: Seq<char>) -> int
    decreases s.len(),
{
    if s.len() == 0 {
        0
    } else {
        digits_value(s.drop_last()) * 10 + digit_val(s.last())
    }
}

/// A digit string's value is never negative.
pub proof fn lemma_digits_value_nonneg(s: Seq<char>)
    requires
        all_digits(s),
    ensures
        digits_value(s) >= 0,
    decreases s.len(),
{
    if s.len() > 0 {
        assert(all_digits(s.drop_last())) by {
            assert(forall|i: int| 0 <= i < s.len() - 1 ==> s.drop_last()[i] == s[i]);
        }
        lemma_digits_value_nonneg(s.drop_last());
    }
}

/// A digit string is worth at least as much as any of its prefixes.
pub proof fn lemma_digits_value_prefix(s: Seq<char>, i: int)
    requires
        all_digits(s),
        0 <= i <= s.len(),
    ensures
        digits_value(s.take(i)) <= digits_value(s),
    decreases s.len() - i,
{
    if i == s.len() {
        assert(s.take(i) =~= s);
    } else {
        lemma_digits_value_prefix(s, i + 1);
        assert(s.take(i + 1).drop_last() =~= s.take(i));
        assert(s.take(i + 1).last() == s[i]);
        assert(all_digits(s.take(i))) by {
            assert(forall|k: int| 0 <= k < i ==> s.take(i)[k] == s[k]);
        }
        lemma_digits_value_nonneg(s.take(i));
    }
}

/// Reads the numeric value that follows an option flag. Answers the value
/// exactly when an argument is present, nonempty, all decimal digits, and
/// small enough for the machine word; answers nothing otherwise.
pub fn get_argument_value(arg: Option<&String>) -> (r: Option<usize>)
    ensures
        arg is None ==> r is None,
        arg matches Some(s) ==> (if s@.len() > 0 && all_digits(s@) && digits_value(s@)
            <= usize::MAX {
            r matches Some(v) && v == digits_value(s@)
        } else {
            r is None
        }),
{
    match arg {
        None => None,
        Some(s) => {
            let t: &str = s.as_str();
            let len: usize = t.unicode_len();
            if len == 0 {
                return None;
            }
            let mut v: usize = 0;
            let mut i: usize = 0;
            proof {
                assert(t@.take(0) =~= Seq::<char>::empty());
            }
            while i < len
                invariant
                    arg == Some(s),
                    t@ == s@,
                    len == t@.len(),
                    0 <= i <= len,
                    forall|k: int| 0 <= k < i ==> is_digit(#[trigger] t@[k]),
                    v == digits_value(t@.take(i as int)),
                decreases len - i,
            {
                let c: char = t.get_char(i);
                let cv: u32 = c as u32;
                if cv < 48 || cv > 57 {
                    proof {
                        assert(!is_digit(s@[i as int]));
                        assert(!all_digits(s@));
                    }
                    return None;
                }
                let d: usize = (cv - 48) as usize;
                proof {
                    assert(t@.take(i + 1).drop_last() =~= t@.take(i as int));
                    assert(t@.take(i + 1).last() == t@[i as int]);
                    vstd::arithmetic::div_mod::lemma_fundamental_div_mod(
                        usize::MAX - d,
                        10,
                    );
                }
                let limit: usize = (usize::MAX - d) / 10;
                if v > limit {
                    proof {
                        let k: int = usize::MAX - d;
                        assert(k == 10 * (k / 10) + k % 10);
                        assert(limit * 10 >= k - 9);
                        assert(v * 10 + d > usize::MAX);
                        assert(digit_val(t@[i as int]) == d);
                        assert(digits_value(t@.take(i + 1)) == v * 10 + d);
                        if all_digits(s@) {
                            lemma_digits_value_prefix(s@, i + 1);
                            assert(digits_value(s@) > usize::MAX);
                        }
                    }
                    return None;
                }
                v = v * 10 + d;
                i = i + 1;
            }
            proof {
                assert(t@.take(len as int) =~= t@);
            }
            Some(v)
        },
    }
}

} // verus!
