//! Decimal rendering of numbers, for file names and messages.

use vstd::prelude::*;

verus! {

pub open spec fn digit_char(d: nat) -> char {
    if d == 0 { '0' }
    else if d == 1 { '1' }
    else if d == 2 { '2' }
    else if d == 3 { '3' }
    else if d == 4 { '4' }
    else if d == 5 { '5' }
    else if d == 6 { '6' }
    else if d == 7 { '7' }
    else if d == 8 { '8' }
    else { '9' }
}

/// Decimal digits of `value`, without leading zeros ("0" for zero).
pub open spec fn decimal(value: nat) -> Seq<char>
    decreases value,
{
    if value < 10 {
        seq![digit_char(value)]
    } else {
        decimal(value / 10).push(digit_char(value % 10))
    }
}

/// Decimal digits of `value`, left-padded with zeros to `width` characters.
pub open spec fn decimal_padded(value: nat, width: nat) -> Seq<char> {
    let digits = decimal(value);
    if digits.len() >= width {
        digits
    } else {
        Seq::new((width - digits.len()) as nat, |i: int| '0') + digits
    }
}

fn digit_text(d: u64) -> (r: &'static str)
    requires
        d < 10,
    ensures
        r@ == seq![digit_char(d as nat)],
{
    let r = if d == 0 { "0" }
    else if d == 1 { "1" }
    else if d == 2 { "2" }
    else if d == 3 { "3" }
    else if d == 4 { "4" }
    else if d == 5 { "5" }
    else if d == 6 { "6" }
    else if d == 7 { "7" }
    else if d == 8 { "8" }
    else { "9" };
    proof {
        reveal_strlit("0");
        reveal_strlit("1");
        reveal_strlit("2");
        reveal_strlit("3");
        reveal_strlit("4");
        reveal_strlit("5");
        reveal_strlit("6");
        reveal_strlit("7");
        reveal_strlit("8");
        reveal_strlit("9");
    }
    r
}

/// Appends the decimal digits of `value` to `out`.
pub fn push_decimal(out: &mut String, value: u64)
    ensures
        final(out)@ == old(out)@ + decimal(value as nat),
    decreases value,
{
    if value >= 10 {
        push_decimal(out, value / 10);
    }
    out.append(digit_text(value % 10));
    proof {
        if value >= 10 {
            assert(decimal(value as nat) == decimal((value / 10) as nat).push(digit_char((value % 10) as nat)));
        }
    }
}

/// The decimal digits of `value`.
pub fn decimal_string(value: u64) -> (r: String)
    ensures
        r@ == decimal(value as nat),
{
    let mut out = String::new();
    push_decimal(&mut out, value);
    proof {
        assert(out@ =~= decimal(value as nat));
    }
    out
}

/// Appends the decimal digits of `value`, left-padded with zeros to
/// `width` characters.
pub fn push_decimal_padded(out: &mut String, value: u64, width: usize)
    ensures
        final(out)@ == old(out)@ + decimal_padded(value as nat, width as nat),
{
    let digits = decimal_string(value);
    let len = digits.as_str().unicode_len();
    let ghost start = out@;
    if len < width {
        let mut i: usize = 0;
        while i < width - len
            invariant
                i <= width - len,
                len == decimal(value as nat).len(),
                len < width,
                out@ == start + Seq::new(i as nat, |k: int| '0'),
            decreases width - len - i,
        {
            out.append("0");
            proof {
                reveal_strlit("0");
                assert(out@ =~= start + Seq::new((i + 1) as nat, |k: int| '0'));
            }
            i = i + 1;
        }
    }
    out.append(digits.as_str());
    proof {
        assert(out@ =~= start + decimal_padded(value as nat, width as nat));
    }
}

} // verus!
