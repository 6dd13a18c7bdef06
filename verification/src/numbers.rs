//! Decimal text: parsing attribute values to `i32` and rendering
//! non-negative numbers back to text.
//!
//! The grammar accepted by `parse_i32` is an optional leading `-`
//! followed by one or more ASCII digits, and the value must fit in
//! `i32`; anything else is rejected.

use vstd::prelude::*;

verus! {

/// Whether `c` is an ASCII decimal digit.
pub open spec fn spec_is_digit(c: char) -> bool {
    '0' <= c && c <= '9'
}

/// The numeric value of the digit `c`.
pub open spec fn spec_digit_val(c: char) -> int {
    c as int - '0' as int
}

/// Whether every character of `s` is an ASCII decimal digit.
pub open spec fn spec_all_digits(s: Seq<char>) -> bool {
    forall|i: int| 0 <= i < s.len() ==> spec_is_digit(#[trigger] s[i])
}

/// The value of a digit string, most significant digit first.
pub open spec fn spec_digits_val(s: Seq<char>) -> int
    decreases s.len(),
{
    if s.len() == 0 {
        0
    } else {
        spec_digits_val(s.drop_last()) * 10 + spec_digit_val(s.last())
    }
}

/// What `parse_i32` accepts: an optional `-`, then at least one digit,
/// with the value within `i32` range.
pub open spec fn spec_parse_i32(s: Seq<char>) -> Option<i32> {
    if s.len() >= 2 && s[0] == '-' && spec_all_digits(s.skip(1)) {
        if -spec_digits_val(s.skip(1)) >= i32::MIN {
            Some((-spec_digits_val(s.skip(1))) as i32)
        } else {
            None
        }
    } else if s.len() >= 1 && spec_all_digits(s) {
        if spec_digits_val(s) <= i32::MAX {
            Some(spec_digits_val(s) as i32)
        } else {
            None
        }
    } else {
        None
    }
}

/// A digit string is never negative.
proof fn lemma_digits_val_nonneg(s: Seq<char>)
    requires
        spec_all_digits(s),
    ensures
        spec_digits_val(s) >= 0,
    decreases s.len(),
{
    if s.len() > 0 {
        assert(spec_all_digits(s.drop_last()));
        lemma_digits_val_nonneg(s.drop_last());
    }
}

/// Parse the digit run `s[from..]`: the exact value when every
/// character is a digit and the value stays within `bound`, `None`
/// otherwise (non-digit present, empty run, or value above `bound`).
fn parse_digits(s: &str, from: usize, bound: i64) -> (r: Option<i64>)
    requires
        from <= s@.len(),
        0 < bound <= 0x8000_0000i64,
    ensures
        spec_all_digits(s@.skip(from as int)) && s@.len() > from ==> match r {
            Some(v) => v == spec_digits_val(s@.skip(from as int)) && 0 <= v <= bound,
            None => spec_digits_val(s@.skip(from as int)) > bound,
        },
        !spec_all_digits(s@.skip(from as int)) || s@.len() == from ==> r == None::<i64>,
{
    let ghost digits = s@.skip(from as int);
    let len = s.unicode_len();
    let mut i: usize = from;
    let mut acc: i64 = 0;
    let mut too_big = false;
    let mut all_digits = true;
    while i < len
        invariant
            from <= i <= len,
            len == s@.len(),
            digits == s@.skip(from as int),
            0 < bound <= 0x8000_0000i64,
            all_digits == spec_all_digits(digits.take(i - from)),
            all_digits && !too_big ==> acc == spec_digits_val(digits.take(i - from)) && 0 <= acc <= bound,
            all_digits && too_big ==> spec_digits_val(digits.take(i - from)) > bound,
        decreases len - i,
    {
        let c = s.get_char(i);
        let ghost prefix = digits.take(i - from);
        let ghost prefix2 = digits.take(i + 1 - from);
        proof {
            assert(digits[i - from] == s@[i as int]);
            assert(prefix2.drop_last() =~= prefix);
            assert(prefix2.last() == digits[i - from]);
        }
        let cu = c as u32;
        let is_dig = cu >= '0' as u32 && cu <= '9' as u32;
        proof {
            assert(is_dig == spec_is_digit(prefix2.last()));
            if all_digits && is_dig {
                assert forall|k: int| 0 <= k < prefix2.len() implies spec_is_digit(#[trigger] prefix2[k]) by {
                    if k < prefix.len() {
                        assert(prefix[k] == prefix2[k]);
                    } else {
                        assert(prefix2[k] == prefix2.last());
                    }
                }
            } else if !is_dig {
                assert(!spec_all_digits(prefix2));
            } else {
                assert(!spec_all_digits(prefix));
                let k = choose|k: int| 0 <= k < prefix.len() && !spec_is_digit(prefix[k]);
                assert(prefix2[k] == prefix[k]);
                assert(!spec_all_digits(prefix2));
            }
        }
        if !is_dig {
            all_digits = false;
        } else if all_digits {
            if too_big {
                proof {
                    lemma_digits_val_nonneg(prefix);
                    assert(spec_digits_val(prefix2) == spec_digits_val(prefix) * 10 + spec_digit_val(prefix2.last()));
                    assert(spec_digits_val(prefix) * 10 >= spec_digits_val(prefix)) by (nonlinear_arith)
                        requires spec_digits_val(prefix) >= 0;
                    assert(spec_digit_val(prefix2.last()) >= 0);
                }
            } else {
                let d = (cu - '0' as u32) as i64;
                proof {
                    assert(d == spec_digit_val(prefix2.last()));
                    assert(spec_digits_val(prefix2) == spec_digits_val(prefix) * 10 + spec_digit_val(prefix2.last()));
                }
                acc = acc * 10 + d;
                if acc > bound {
                    too_big = true;
                }
            }
        }
        i = i + 1;
    }
    proof {
        assert(digits.take(len - from) =~= digits);
    }
    if all_digits && !too_big && len > from {
        Some(acc)
    } else {
        None
    }
}

/// Parse `s` as a decimal `i32`: an optional leading `-`, then one or
/// more digits; exactly the strings of `spec_parse_i32` are accepted.
pub fn parse_i32(s: &str) -> (r: Option<i32>)
    ensures
        r == spec_parse_i32(s@),
{
    let len = s.unicode_len();
    if len >= 2 && s.get_char(0) == '-' {
        let r = parse_digits(s, 1, 0x8000_0000i64);
        proof {
            if !(s@.len() >= 2 && s@[0] == '-' && spec_all_digits(s@.skip(1))) {
                assert(spec_parse_i32(s@) == None::<i32>);
            }
        }
        match r {
            Some(v) => Some((-v) as i32),
            None => None,
        }
    } else if len >= 1 {
        let first = s.get_char(0) as u32;
        if first == '-' as u32 {
            proof {
                assert(s@[0] == '-');
                assert(s@.len() == 1);
                assert(!spec_all_digits(s@) || !spec_is_digit(s@[0]));
            }
            return None;
        }
        let r = parse_digits(s, 0, 0x7fff_ffffi64);
        proof {
            assert(s@.skip(0) =~= s@);
            if s@.len() >= 2 && s@[0] == '-' {
                assert(false);
            }
        }
        match r {
            Some(v) => Some(v as i32),
            None => None,
        }
    } else {
        None
    }
}

/// The decimal rendering of `n >= 0`, most significant digit first.
pub open spec fn spec_render_u32(n: int) -> Seq<char>
    decreases n,
{
    if n <= 9 {
        seq![spec_digit_char(n)]
    } else {
        spec_render_u32(n / 10) + seq![spec_digit_char(n % 10)]
    }
}

/// The digit character for a value in `0 ..= 9`.
pub open spec fn spec_digit_char(d: int) -> char {
    if d == 0 { '0' }
    else if d == 1 { '1' }
    else if d == 2 { '2' }
    else if d == 3 { '3' }
    else if d == 4 { '4' }
    else if d == 5 { '5' }
    else if d == 6 { '6' }
    else if d == 7 { '7' }
    else if d == 8 { '8' }
    else { '9' }
}

/// One digit as a string slice.
fn digit_str(d: u32) -> (r: &'static str)
    requires
        d <= 9,
    ensures
        r@ == seq![spec_digit_char(d as int)],
{
    proof {
        reveal_strlit("0");
        reveal_strlit("1");
        reveal_strlit("2");
        reveal_strlit("3");
        reveal_strlit("4");
        reveal_strlit("5");
        reveal_strlit("6");
        reveal_strlit("7");
        reveal_strlit("8");
        reveal_strlit("9");
    }
    if d == 0 { "0" }
    else if d == 1 { "1" }
    else if d == 2 { "2" }
    else if d == 3 { "3" }
    else if d == 4 { "4" }
    else if d == 5 { "5" }
    else if d == 6 { "6" }
    else if d == 7 { "7" }
    else if d == 8 { "8" }
    else { "9" }
}

/// Render `n` in decimal, most significant digit first.
pub fn render_u32(n: u32) -> (r: String)
    ensures
        r@ == spec_render_u32(n as int),
    decreases n,
{
    if n <= 9 {
        String::from_str(digit_str(n))
    } else {
        let high = render_u32(n / 10);
        high.concat(digit_str(n % 10))
    }
}

} // verus!
