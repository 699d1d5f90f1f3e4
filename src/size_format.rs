//! Byte counts as short human-readable text.
use vstd::prelude::*;

verus! {

pub const KIB: u64 = 1024;
pub const MIB: u64 = KIB * KIB;
pub const GIB: u64 = MIB * KIB;
pub const TIB: u64 = GIB * KIB;

/// The character of a decimal digit.
pub open spec fn digit_char(d: nat) -> char {
    if d == 0 { '0' }
    else if d == 1 { '1' }
    else if d == 2 { '2' }
    else if d == 3 { '3' }
    else if d == 4 { '4' }
    else if d == 5 { '5' }
    else if d == 6 { '6' }
    else if d == 7 { '7' }
    else if d == 8 { '8' }
    else { '9' }
}

/// The decimal digits of `n`, most significant first, without leading zeros.
pub open spec fn decimal_of(n: nat) -> Seq<char>
    decreases n,
{
    if n < 10 {
        seq![digit_char(n)]
    } else {
        decimal_of(n / 10).push(digit_char(n % 10))
    }
}

/// A byte count in the largest binary unit it reaches, rounded down.
pub open spec fn human_size(bytes: u64) -> Seq<char> {
    if bytes < KIB {
        decimal_of(bytes as nat) + " B"@
    } else if bytes < MIB {
        decimal_of((bytes / KIB) as nat) + " KiB"@
    } else if bytes < GIB {
        decimal_of((bytes / MIB) as nat) + " MiB"@
    } else if bytes < TIB {
        decimal_of((bytes / GIB) as nat) + " GiB"@
    } else {
        decimal_of((bytes / TIB) as nat) + " TiB"@
    }
}

/// The text of one decimal digit.
fn digit_text(d: u64) -> (r: &'static str)
    requires
        d < 10,
    ensures
        r@ == seq![digit_char(d as nat)],
{
    proof {
        reveal_strlit("0");
        reveal_strlit("1");
        reveal_strlit("2");
        reveal_strlit("3");
        reveal_strlit("4");
        reveal_strlit("5");
        reveal_strlit("6");
        reveal_strlit("7");
        reveal_strlit("8");
        reveal_strlit("9");
    }
    let r = if d == 0 { "0" }
    else if d == 1 { "1" }
    else if d == 2 { "2" }
    else if d == 3 { "3" }
    else if d == 4 { "4" }
    else if d == 5 { "5" }
    else if d == 6 { "6" }
    else if d == 7 { "7" }
    else if d == 8 { "8" }
    else { "9" };
    assert(r@ =~= seq![digit_char(d as nat)]);
    r
}

/// Appends the decimal digits of `n` to `s`.
fn push_decimal(s: &mut String, n: u64)
    ensures
        final(s)@ == old(s)@ + decimal_of(n as nat),
    decreases n,
{
    if n >= 10 {
        push_decimal(s, n / 10);
    }
    s.append(digit_text(n % 10));
}

pub fn convert_bytes_size_to_human(bytes: u64) -> (r: String)
    ensures
        r@ == human_size(bytes),
{
    let mut s = String::new();
    if bytes < KIB {
        push_decimal(&mut s, bytes);
        s.append(" B");
    } else if bytes < MIB {
        push_decimal(&mut s, bytes / KIB);
        s.append(" KiB");
    } else if bytes < GIB {
        push_decimal(&mut s, bytes / MIB);
        s.append(" MiB");
    } else if bytes < TIB {
        push_decimal(&mut s, bytes / GIB);
        s.append(" GiB");
    } else {
        push_decimal(&mut s, bytes / TIB);
        s.append(" TiB");
    }
    s
}

} // verus!
