//! Writing numbers as text, in decimal and in lowercase hexadecimal.
use vstd::prelude::*;

verus! {

/// The character of the digit `d` (0 to 15): `0`-`9`, then `a`-`f`.
pub open spec fn digit_char(d: int) -> char {
    if d < 10 {
        (48 + d) as char
    } else {
        (87 + d) as char
    }
}

/// The lowercase hexadecimal digits of `v`, without leading zeros (`0` for 0).
pub open spec fn hex_digits(v: nat) -> Seq<char>
    decreases v,
{
    if v < 16 {
        seq![digit_char(v as int)]
    } else {
        hex_digits(v / 16).push(digit_char((v % 16) as int))
    }
}

/// The decimal digits of `v`, without leading zeros (`0` for 0).
pub open spec fn dec_digits(v: nat) -> Seq<char>
    decreases v,
{
    if v < 10 {
        seq![digit_char(v as int)]
    } else {
        dec_digits(v / 10).push(digit_char((v % 10) as int))
    }
}

/// `width - s.len()` times `0`, then `s` (just `s` if it is long enough).
pub open spec fn zero_padded(s: Seq<char>, width: nat) -> Seq<char> {
    if s.len() >= width {
        s
    } else {
        Seq::new((width - s.len()) as nat, |i: int| '0') + s
    }
}

/// `0x`, then the hexadecimal digits of `v` padded with zeros to `digits` digits.
pub open spec fn prefixed_hex(v: nat, digits: nat) -> Seq<char> {
    seq!['0', 'x'] + zero_padded(hex_digits(v), digits)
}

/// The text of the digit `d` (0 to 15).
fn digit_str(d: u64) -> (r: &'static str)
    requires
        d < 16,
    ensures
        r@ == seq![digit_char(d as int)],
{
    let table = "0123456789abcdef";
    proof {
        reveal_strlit("0123456789abcdef");
    }
    assert(vstd::string::is_ascii(table));
    let i = d as usize;
    table.substring_ascii(i, i + 1)
}

/// Appends the lowercase hexadecimal digits of `v`.
pub fn push_hex(out: &mut String, v: u64)
    ensures
        final(out)@ == old(out)@ + hex_digits(v as nat),
    decreases v,
{
    if v >= 16 {
        push_hex(out, v / 16);
    }
    let d = digit_str(v % 16);
    out.append(d);
}

/// Appends the decimal digits of `v`.
pub fn push_dec(out: &mut String, v: u64)
    ensures
        final(out)@ == old(out)@ + dec_digits(v as nat),
    decreases v,
{
    if v >= 10 {
        push_dec(out, v / 10);
    }
    let d = digit_str(v % 10);
    out.append(d);
}

/// Appends `0x`, then the hexadecimal digits of `v` padded with zeros to
/// `digits` digits.
pub fn push_prefixed_hex(out: &mut String, v: u64, digits: usize)
    ensures
        final(out)@ == old(out)@ + prefixed_hex(v as nat, digits as nat),
{
    let prefix = "0x";
    proof {
        reveal_strlit("0x");
    }
    out.append(prefix);
    let ghost start = out@;
    let mut hex = String::new();
    push_hex(&mut hex, v);
    let n = hex.as_str().unicode_len();
    if n < digits {
        let zero = digit_str(0);
        let mut i: usize = 0;
        while i < digits - n
            invariant
                n < digits,
                i <= digits - n,
                zero@ == seq!['0'],
                out@ == start + Seq::new(i as nat, |j: int| '0'),
            decreases digits - n - i,
        {
            out.append(zero);
            assert(start + Seq::new((i + 1) as nat, |j: int| '0') =~= start + Seq::new(
                i as nat,
                |j: int| '0',
            ) + seq!['0']);
            i = i + 1;
        }
    }
    out.append(hex.as_str());
    assert(out@ =~= old(out)@ + prefixed_hex(v as nat, digits as nat));
}

/// The value of a digit character: `0`-`9` are 0 to 9, `a`-`f` are 10 to 15.
pub open spec fn char_value(c: char) -> int {
    if '0' <= c <= '9' {
        c as int - 48
    } else {
        c as int - 87
    }
}

/// Whether `c` is one of `0`-`9`.
pub open spec fn is_dec_char(c: char) -> bool {
    '0' <= c <= '9'
}

/// Whether `c` is one of `0`-`9` or `a`-`f`.
pub open spec fn is_hex_char(c: char) -> bool {
    ('0' <= c <= '9') || ('a' <= c <= 'f')
}

/// The number that the digits `s` spell in base `base`, most significant first.
pub open spec fn value_in_base(s: Seq<char>, base: int) -> int
    decreases s.len(),
{
    if s.len() == 0 {
        0
    } else {
        value_in_base(s.drop_last(), base) * base + char_value(s.last())
    }
}

proof fn lemma_digit_char(d: int)
    requires
        0 <= d < 16,
    ensures
        is_hex_char(digit_char(d)),
        char_value(digit_char(d)) == d,
        d < 10 ==> is_dec_char(digit_char(d)),
        digit_char(d) == '0' <==> d == 0,
{
    if d < 10 {
        assert(((48 + d) as char) as int == 48 + d);
    } else {
        assert(((87 + d) as char) as int == 87 + d);
    }
}

/// The decimal text of `v` names `v`: it is one or more digits `0`-`9`, it
/// starts with `0` only when `v` is 0, and read in base 10 it gives `v`.
pub proof fn law_dec_digits_spell_value(v: nat)
    ensures
        dec_digits(v).len() >= 1,
        forall|i: int| 0 <= i < dec_digits(v).len() ==> is_dec_char(#[trigger] dec_digits(v)[i]),
        dec_digits(v)[0] == '0' ==> v == 0,
        value_in_base(dec_digits(v), 10) == v,
    decreases v,
{
    if v < 10 {
        lemma_digit_char(v as int);
        assert(seq![digit_char(v as int)].drop_last() =~= Seq::<char>::empty());
        assert(value_in_base(Seq::<char>::empty(), 10) == 0);
        assert(value_in_base(seq![digit_char(v as int)], 10) == 0 * 10 + v);
    } else {
        let s = dec_digits(v / 10);
        let d = (v % 10) as int;
        law_dec_digits_spell_value(v / 10);
        lemma_digit_char(d);
        assert(s.push(digit_char(d)).drop_last() =~= s);
        assert(s.push(digit_char(d))[0] == s[0]);
        assert(s.push(digit_char(d)).last() == digit_char(d));
        assert(value_in_base(s.push(digit_char(d)), 10) == value_in_base(s, 10) * 10 + d);
        assert((v / 10) * 10 + v % 10 == v) by (nonlinear_arith);
    }
}

/// The hexadecimal text of `v` names `v`: it is one or more digits `0`-`9`
/// and `a`-`f`, it starts with `0` only when `v` is 0, and read in base 16 it
/// gives `v`.
pub proof fn law_hex_digits_spell_value(v: nat)
    ensures
        hex_digits(v).len() >= 1,
        forall|i: int| 0 <= i < hex_digits(v).len() ==> is_hex_char(#[trigger] hex_digits(v)[i]),
        hex_digits(v)[0] == '0' ==> v == 0,
        value_in_base(hex_digits(v), 16) == v,
    decreases v,
{
    if v < 16 {
        lemma_digit_char(v as int);
        assert(seq![digit_char(v as int)].drop_last() =~= Seq::<char>::empty());
        assert(value_in_base(Seq::<char>::empty(), 16) == 0);
        assert(value_in_base(seq![digit_char(v as int)], 16) == 0 * 16 + v);
    } else {
        let s = hex_digits(v / 16);
        let d = (v % 16) as int;
        law_hex_digits_spell_value(v / 16);
        lemma_digit_char(d);
        assert(s.push(digit_char(d)).drop_last() =~= s);
        assert(s.push(digit_char(d))[0] == s[0]);
        assert(s.push(digit_char(d)).last() == digit_char(d));
        assert(value_in_base(s.push(digit_char(d)), 16) == value_in_base(s, 16) * 16 + d);
        assert((v / 16) * 16 + v % 16 == v) by (nonlinear_arith);
    }
}

proof fn lemma_zeros_value(n: nat, base: int)
    ensures
        value_in_base(Seq::new(n, |i: int| '0'), base) == 0,
    decreases n,
{
    if n > 0 {
        lemma_zeros_value((n - 1) as nat, base);
        assert(Seq::new(n, |i: int| '0').drop_last() =~= Seq::new((n - 1) as nat, |i: int| '0'));
        assert(char_value('0') == 0);
    }
}

proof fn lemma_leading_zeros_value(n: nat, s: Seq<char>, base: int)
    ensures
        value_in_base(Seq::new(n, |i: int| '0') + s, base) == value_in_base(s, base),
    decreases s.len(),
{
    let z = Seq::new(n, |i: int| '0');
    if s.len() == 0 {
        assert(z + s =~= z);
        lemma_zeros_value(n, base);
    } else {
        lemma_leading_zeros_value(n, s.drop_last(), base);
        assert((z + s).drop_last() =~= z + s.drop_last());
        assert((z + s).last() == s.last());
    }
}

/// The hexadecimal text with `0x` names `v`: `0x`, then at least `digits`
/// digits `0`-`9` and `a`-`f` (exactly `digits` where `v` has no more), which
/// read in base 16 give `v`.
pub proof fn law_prefixed_hex_spells_value(v: nat, digits: nat)
    ensures
        prefixed_hex(v, digits).len() >= 2,
        prefixed_hex(v, digits)[0] == '0',
        prefixed_hex(v, digits)[1] == 'x',
        ({
            let rest = prefixed_hex(v, digits).subrange(2, prefixed_hex(v, digits).len() as int);
            &&& rest.len() >= digits
            &&& hex_digits(v).len() <= digits ==> rest.len() == digits
            &&& forall|i: int| 0 <= i < rest.len() ==> is_hex_char(#[trigger] rest[i])
            &&& value_in_base(rest, 16) == v
        }),
{
    law_hex_digits_spell_value(v);
    let h = hex_digits(v);
    let p = prefixed_hex(v, digits);
    let rest = p.subrange(2, p.len() as int);
    assert(rest =~= zero_padded(h, digits));
    if h.len() < digits {
        let n = (digits - h.len()) as nat;
        lemma_leading_zeros_value(n, h, 16);
        assert forall|i: int| 0 <= i < rest.len() implies is_hex_char(#[trigger] rest[i]) by {
            if i >= n {
                assert(rest[i] == h[i - n]);
            }
        }
    }
}

/// 16 to the power `k`.
pub open spec fn pow16(k: nat) -> nat
    decreases k,
{
    if k == 0 {
        1
    } else {
        16 * pow16((k - 1) as nat)
    }
}

proof fn lemma_hex_digits_len_bound(v: nat, k: nat)
    requires
        1 <= k,
        v < pow16(k),
    ensures
        hex_digits(v).len() <= k,
    decreases k,
{
    if v >= 16 {
        if k == 1 {
            assert(pow16(1) == 16 * pow16(0));
        } else {
            let x = pow16((k - 1) as nat);
            assert(v / 16 < x) by (nonlinear_arith)
                requires
                    v < 16 * x,
            ;
            lemma_hex_digits_len_bound(v / 16, (k - 1) as nat);
        }
    }
}

/// A 64-bit value in hexadecimal with `0x` and 16 digits is 18 characters long.
pub proof fn lemma_prefixed_hex_len(v: nat)
    requires
        v <= u64::MAX,
    ensures
        prefixed_hex(v, 16).len() == 18,
{
    reveal_with_fuel(pow16, 17);
    assert(pow16(16) == 0x1_0000_0000_0000_0000);
    lemma_hex_digits_len_bound(v, 16);
}

} // verus!
