//! Number formatting for reports: hexadecimal and decimal renderings built
//! character by character.
use vstd::prelude::*;

verus! {

/// The lower-case hexadecimal digit of `d` (`d < 16`).
pub open spec fn hex_char(d: int) -> char {
    if d < 10 {
        (('0' as int) + d) as char
    } else {
        (('a' as int) + d - 10) as char
    }
}

/// The decimal digit of `d` (`d < 10`).
pub open spec fn dec_char(d: int) -> char {
    (('0' as int) + d) as char
}

/// The `n` low hexadecimal digits of `v`, most significant first.
pub open spec fn hex_digits(v: nat, n: nat) -> Seq<char>
    decreases n,
{
    if n == 0 {
        Seq::empty()
    } else {
        hex_digits(v / 16, (n - 1) as nat).push(hex_char((v % 16) as int))
    }
}

/// 16 to the power `n`.
pub open spec fn pow16(n: nat) -> nat
    decreases n,
{
    if n == 0 {
        1
    } else {
        16 * pow16((n - 1) as nat)
    }
}

/// `hex_digits` gives exactly `n` digits.
pub proof fn lemma_hex_digits_len(v: nat, n: nat)
    ensures
        hex_digits(v, n).len() == n,
    decreases n,
{
    if n > 0 {
        lemma_hex_digits_len(v / 16, (n - 1) as nat);
    }
}

/// Two numbers below 16^n with the same `n` hexadecimal digits are equal.
pub proof fn lemma_hex_digits_injective(v: nat, w: nat, n: nat)
    requires
        v < pow16(n),
        w < pow16(n),
        hex_digits(v, n) == hex_digits(w, n),
    ensures
        v == w,
    decreases n,
{
    if n > 0 {
        let hv = hex_digits(v, n);
        let hw = hex_digits(w, n);
        assert(hv.last() == hex_char((v % 16) as int));
        assert(hw.last() == hex_char((w % 16) as int));
        assert(hv.drop_last() == hex_digits(v / 16, (n - 1) as nat));
        assert(hw.drop_last() == hex_digits(w / 16, (n - 1) as nat));
        lemma_hex_digits_injective(v / 16, w / 16, (n - 1) as nat);
    }
}

/// Different values render differently.
pub proof fn lemma_hex8_injective(v: u32, w: u32)
    requires
        v != w,
    ensures
        spec_hex8(v) != spec_hex8(w),
{
    assert(pow16(8) == 0x1_0000_0000) by {
        reveal_with_fuel(pow16, 9);
    }
    if spec_hex8(v) == spec_hex8(w) {
        lemma_hex_digits_len(v as nat, 8);
        lemma_hex_digits_len(w as nat, 8);
        assert(hex_digits(v as nat, 8) =~= spec_hex8(v).subrange(2, 10));
        assert(hex_digits(w as nat, 8) =~= spec_hex8(w).subrange(2, 10));
        lemma_hex_digits_injective(v as nat, w as nat, 8);
    }
}

/// `v` as `0x` followed by eight hexadecimal digits (Rust's `{:#010x}`).
pub open spec fn spec_hex8(v: u32) -> Seq<char> {
    seq!['0', 'x'] + hex_digits(v as nat, 8)
}

/// The decimal rendering of `v`, without leading zeros ("0" for zero).
pub open spec fn spec_dec(v: nat) -> Seq<char>
    decreases v,
{
    if v < 10 {
        seq![dec_char(v as int)]
    } else {
        spec_dec(v / 10).push(dec_char((v % 10) as int))
    }
}

/// A one-character string holding digit `d` of base 16.
fn digit_str(d: u32) -> (r: &'static str)
    requires
        d < 16,
    ensures
        r@ == seq![hex_char(d as int)],
{
    proof {
        reveal_strlit("0");
        reveal_strlit("1");
        reveal_strlit("2");
        reveal_strlit("3");
        reveal_strlit("4");
        reveal_strlit("5");
        reveal_strlit("6");
        reveal_strlit("7");
        reveal_strlit("8");
        reveal_strlit("9");
        reveal_strlit("a");
        reveal_strlit("b");
        reveal_strlit("c");
        reveal_strlit("d");
        reveal_strlit("e");
        reveal_strlit("f");
    }
    if d == 0 {
        "0"
    } else if d == 1 {
        "1"
    } else if d == 2 {
        "2"
    } else if d == 3 {
        "3"
    } else if d == 4 {
        "4"
    } else if d == 5 {
        "5"
    } else if d == 6 {
        "6"
    } else if d == 7 {
        "7"
    } else if d == 8 {
        "8"
    } else if d == 9 {
        "9"
    } else if d == 10 {
        "a"
    } else if d == 11 {
        "b"
    } else if d == 12 {
        "c"
    } else if d == 13 {
        "d"
    } else if d == 14 {
        "e"
    } else {
        "f"
    }
}

/// Append the `n` low hexadecimal digits of `v` to `s`.
fn push_hex_digits(s: &mut String, v: u64, n: u32)
    requires
        n <= 16,
    ensures
        final(s)@ == old(s)@ + hex_digits(v as nat, n as nat),
    decreases n,
{
    if n > 0 {
        push_hex_digits(s, v / 16, n - 1);
        s.append(digit_str((v % 16) as u32));
    }
}

/// `v` as `0x` followed by eight hexadecimal digits.
pub fn hex8(v: u32) -> (r: String)
    ensures
        r@ == spec_hex8(v),
{
    let mut s = String::from_str("0x");
    proof {
        reveal_strlit("0x");
    }
    push_hex_digits(&mut s, v as u64, 8);
    s
}

/// Append `v` in decimal to `s`.
pub fn push_dec(s: &mut String, v: u64)
    ensures
        final(s)@ == old(s)@ + spec_dec(v as nat),
    decreases v,
{
    if v < 10 {
        s.append(digit_str(v as u32));
    } else {
        push_dec(s, v / 10);
        s.append(digit_str((v % 10) as u32));
    }
}

/// Append `v` as `0x` and eight hexadecimal digits to `s`.
pub fn push_hex8(s: &mut String, v: u32)
    ensures
        final(s)@ == old(s)@ + spec_hex8(v),
{
    let h = hex8(v);
    s.append(h.as_str());
}

/// The decimal rendering of a signed value: a minus sign before the
/// magnitude of a negative one.
pub open spec fn spec_dec_signed(v: int) -> Seq<char> {
    if v < 0 {
        seq!['-'] + spec_dec((-v) as nat)
    } else {
        spec_dec(v as nat)
    }
}

/// Append `v` in decimal to `s`, with a minus sign when negative.
pub fn push_dec_i32(s: &mut String, v: i32)
    ensures
        final(s)@ == old(s)@ + spec_dec_signed(v as int),
{
    if v < 0 {
        s.append("-");
        proof {
            reveal_strlit("-");
        }
        let mag: u64 = (0i64 - v as i64) as u64;
        push_dec(s, mag);
        proof {
            assert(final(s)@ =~= old(s)@ + spec_dec_signed(v as int)) by {
                assert(seq!['-'] + spec_dec((-v) as nat) == spec_dec_signed(v as int));
            }
        }
    } else {
        push_dec(s, v as u64);
    }
}

/// The upper-case hexadecimal digit of `d` (`d < 16`).
pub open spec fn hex_char_upper(d: int) -> char {
    if d < 10 {
        (('0' as int) + d) as char
    } else {
        (('A' as int) + d - 10) as char
    }
}

/// `v` in upper-case hexadecimal without leading zeros ("0" for zero),
/// as Rust's `{:X}` writes it.
pub open spec fn spec_hex_upper(v: nat) -> Seq<char>
    decreases v,
{
    if v < 16 {
        seq![hex_char_upper(v as int)]
    } else {
        spec_hex_upper(v / 16).push(hex_char_upper((v % 16) as int))
    }
}

/// A one-character string holding upper-case digit `d` of base 16.
fn upper_digit_str(d: u32) -> (r: &'static str)
    requires
        d < 16,
    ensures
        r@ == seq![hex_char_upper(d as int)],
{
    proof {
        reveal_strlit("A");
        reveal_strlit("B");
        reveal_strlit("C");
        reveal_strlit("D");
        reveal_strlit("E");
        reveal_strlit("F");
    }
    if d < 10 {
        digit_str(d)
    } else if d == 10 {
        "A"
    } else if d == 11 {
        "B"
    } else if d == 12 {
        "C"
    } else if d == 13 {
        "D"
    } else if d == 14 {
        "E"
    } else {
        "F"
    }
}

/// Append `v` in upper-case hexadecimal, without leading zeros.
pub fn push_hex_upper(s: &mut String, v: u64)
    ensures
        final(s)@ == old(s)@ + spec_hex_upper(v as nat),
    decreases v,
{
    if v < 16 {
        s.append(upper_digit_str(v as u32));
    } else {
        push_hex_upper(s, v / 16);
        s.append(upper_digit_str((v % 16) as u32));
    }
}

/// Append the `n` low lower-case hexadecimal digits of `v`.
pub fn push_hex_n(s: &mut String, v: u64, n: u32)
    requires
        n <= 16,
    ensures
        final(s)@ == old(s)@ + hex_digits(v as nat, n as nat),
{
    push_hex_digits(s, v, n);
}

/// `v` in lower-case hexadecimal without leading zeros ("0" for zero),
/// as Rust's `{:x}` writes it.
pub open spec fn spec_hex_lower(v: nat) -> Seq<char>
    decreases v,
{
    if v < 16 {
        seq![hex_char(v as int)]
    } else {
        spec_hex_lower(v / 16).push(hex_char((v % 16) as int))
    }
}

/// Append `v` in lower-case hexadecimal, without leading zeros.
pub fn push_hex_lower(s: &mut String, v: u64)
    ensures
        final(s)@ == old(s)@ + spec_hex_lower(v as nat),
    decreases v,
{
    if v < 16 {
        s.append(digit_str(v as u32));
    } else {
        push_hex_lower(s, v / 16);
        s.append(digit_str((v % 16) as u32));
    }
}

/// `v` in lower-case hexadecimal, at least two digits (Rust's `{:02x}`).
pub open spec fn spec_hex_lower2(v: nat) -> Seq<char> {
    if v < 16 {
        seq!['0'] + spec_hex_lower(v)
    } else {
        spec_hex_lower(v)
    }
}

/// Append `v` as Rust's `{:02x}` writes it.
pub fn push_hex_lower2(s: &mut String, v: u64)
    ensures
        final(s)@ == old(s)@ + spec_hex_lower2(v as nat),
{
    if v < 16 {
        s.append("0");
        proof {
            reveal_strlit("0");
        }
    }
    push_hex_lower(s, v);
}

/// `n` spaces.
pub open spec fn spaces(n: nat) -> Seq<char> {
    Seq::new(n, |i: int| ' ')
}

/// `t` padded with spaces on the right to at least `w` characters
/// (Rust's `{:<w}`).
pub open spec fn pad_right(t: Seq<char>, w: nat) -> Seq<char> {
    if t.len() < w {
        t + spaces((w - t.len()) as nat)
    } else {
        t
    }
}

/// Append `t`, padded with spaces on the right to at least `w` characters.
pub fn push_padded(s: &mut String, t: &str, w: usize)
    ensures
        final(s)@ == old(s)@ + pad_right(t@, w as nat),
{
    let ghost s0 = s@;
    s.append(t);
    let n = t.unicode_len();
    if n < w {
        let mut k: usize = n;
        while k < w
            invariant
                n <= k <= w,
                n == t@.len(),
                s@ == s0 + t@ + spaces((k - n) as nat),
            decreases w - k,
        {
            s.append(" ");
            proof {
                reveal_strlit(" ");
                assert(spaces((k + 1 - n) as nat) =~= spaces((k - n) as nat).push(' '));
            }
            k = k + 1;
        }
        assert(s@ =~= s0 + pad_right(t@, w as nat));
    } else {
        assert(s@ =~= s0 + pad_right(t@, w as nat));
    }
}

} // verus!
