use vstd::prelude::*;

use crate::buffer_utils::{
    all_digits, decode_spec, digit_value, digits_value, lemma_text_of, text_of, window, WINDOW,
};

verus! {

/// The canonical lowercase digit character for a value below 16.
pub open spec fn digit_char(d: nat) -> u8 {
    if d < 10 {
        (d + 48) as u8
    } else {
        (d + 87) as u8
    }
}

/// The digits of `n` in `radix`, most significant first; none for zero.
pub open spec fn digits(n: nat, radix: nat) -> Seq<u8>
    decreases n
    via digits_decreases
{
    if n == 0 || radix < 2 {
        Seq::empty()
    } else {
        digits(n / radix, radix).push(digit_char(n % radix))
    }
}

#[via_fn]
proof fn digits_decreases(n: nat, radix: nat) {
    if n != 0 && radix >= 2 {
        assert(n / radix < n) by (nonlinear_arith)
            requires
                n > 0,
                radix >= 2,
        ;
    }
}

/// What `to_ascii` writes: the decimal digits of `n`, or `0` for zero.
pub open spec fn ascii_spec(n: nat) -> Seq<u8> {
    if n == 0 {
        seq![48u8]
    } else {
        digits(n, 10)
    }
}

/// What `to_hex` writes: the lowercase hex digits of `n`, with one `0` in
/// front when their number is odd, or `00` for zero.
pub open spec fn hex_spec(n: nat) -> Seq<u8> {
    if n == 0 {
        seq![48u8, 48u8]
    } else if digits(n, 16).len() % 2 == 1 {
        seq![48u8] + digits(n, 16)
    } else {
        digits(n, 16)
    }
}

/// A lowercase hex digit character.
pub open spec fn is_lower_hex(c: u8) -> bool {
    (48 <= c <= 57) || (97 <= c <= 102)
}

/// Two to the power `k`.
pub open spec fn two_pow(k: nat) -> nat
    decreases k,
{
    if k == 0 {
        1
    } else {
        2 * two_pow((k - 1) as nat)
    }
}

/// The digits of `n` are digit characters of `radix`, none of them zero, and
/// read back as `n`.
proof fn lemma_digits_read_back(n: nat, radix: nat)
    requires
        2 <= radix <= 16,
    ensures
        all_digits(digits(n, radix), radix),
        forall|i: int| 0 <= i < digits(n, radix).len() ==> is_lower_hex(#[trigger] digits(n, radix)[i]),
        digits_value(digits(n, radix), radix) == n,
    decreases n,
{
    if n > 0 {
        let q = n / radix;
        assert(q < n) by (nonlinear_arith)
            requires
                n > 0,
                radix >= 2,
                q == n / radix,
        ;
        lemma_digits_read_back(q, radix);
        let d = n % radix;
        assert(q * radix + d == n) by (nonlinear_arith)
            requires
                radix > 0,
                q == n / radix,
                d == n % radix,
        ;
        let s = digits(n, radix);
        assert(s.drop_last() =~= digits(q, radix));
        assert(digit_value(digit_char(d)) == d);
        assert forall|i: int| 0 <= i < s.len() implies digit_value(#[trigger] s[i]) < radix
            && is_lower_hex(s[i]) by {
            if i < s.len() - 1 {
                assert(s[i] == digits(q, radix)[i]);
            }
        }
    }
}

/// Fewer than `k` bits make at most `k` digits.
proof fn lemma_digits_len(n: nat, radix: nat, k: nat)
    requires
        2 <= radix,
        n < two_pow(k),
    ensures
        digits(n, radix).len() <= k,
    decreases k,
{
    if n > 0 {
        let q = n / radix;
        let h = two_pow((k - 1) as nat);
        assert(q < h) by (nonlinear_arith)
            requires
                q == n / radix,
                radix >= 2,
                n < 2 * h,
        ;
        lemma_digits_len(q, radix, (k - 1) as nat);
    }
}

/// A leading `0` leaves the number that digits write unchanged.
proof fn lemma_leading_zero(s: Seq<u8>, radix: nat)
    ensures
        digits_value(seq![48u8] + s, radix) == digits_value(s, radix),
    decreases s.len(),
{
    if s.len() == 0 {
        assert(seq![48u8] + s =~= seq![48u8]);
        assert(seq![48u8].drop_last() =~= Seq::<u8>::empty());
        assert(digit_value(48u8) == 0);
        assert(digits_value(Seq::<u8>::empty(), radix) == 0);
        assert(digits_value(seq![48u8], radix) == 0 * radix + 0);
    } else {
        lemma_leading_zero(s.drop_last(), radix);
        assert((seq![48u8] + s).drop_last() =~= seq![48u8] + s.drop_last());
        assert((seq![48u8] + s).last() == s.last());
        assert(digits_value(seq![48u8] + s, radix) == digits_value(seq![48u8] + s.drop_last(), radix)
            * radix + digit_value(s.last()));
    }
}

/// A u64 has at most 64 digits in any radix.
proof fn lemma_u64_digits_len(n: u64, radix: nat)
    requires
        2 <= radix,
    ensures
        digits(n as nat, radix).len() <= 64,
{
    assert(two_pow(64) == 0x10000000000000000) by {
        reveal_with_fuel(two_pow, 65);
    }
    lemma_digits_len(n as nat, radix, 64);
}

/// The decimal text that `to_ascii` writes for `n` fits the window and reads
/// back through `ascii_to_u64` as `n`.
pub proof fn lemma_ascii_round_trip(n: u64)
    ensures
        ascii_spec(n as nat).len() <= WINDOW,
        decode_spec(text_of(window(ascii_spec(n as nat))), 10) == Some(n),
{
    let s = ascii_spec(n as nat);
    lemma_u64_digits_len(n, 10);
    lemma_digits_read_back(n as nat, 10);
    if n == 0 {
        assert(s.drop_last() =~= Seq::<u8>::empty());
    }
    let w = window(s);
    assert(forall|j: int| 0 <= j < s.len() ==> w[j] == s[j] && s[j] != 0);
    lemma_text_of(w, s.len() as int);
    assert(w.subrange(0, s.len() as int) =~= s);
}

/// The text that `to_hex` writes for `n` has an even number of lowercase hex
/// digits, fits the window, and reads back through `hex_to_u64` as `n`.
pub proof fn lemma_hex_round_trip(n: u64)
    ensures
        hex_spec(n as nat).len() % 2 == 0,
        forall|i: int| 0 <= i < hex_spec(n as nat).len() ==> is_lower_hex(#[trigger] hex_spec(n as nat)[i]),
        hex_spec(n as nat).len() <= WINDOW,
        decode_spec(text_of(window(hex_spec(n as nat))), 16) == Some(n),
{
    let s = hex_spec(n as nat);
    let d = digits(n as nat, 16);
    lemma_u64_digits_len(n, 16);
    lemma_digits_read_back(n as nat, 16);
    if n == 0 {
        lemma_leading_zero(Seq::<u8>::empty(), 16);
        assert(s =~= seq![48u8] + Seq::<u8>::empty() + seq![48u8]);
        assert(s.drop_last() =~= seq![48u8] + Seq::<u8>::empty());
        assert(s.drop_last().drop_last() =~= Seq::<u8>::empty());
    } else if d.len() % 2 == 1 {
        lemma_leading_zero(d, 16);
        assert forall|i: int| 0 <= i < s.len() implies is_lower_hex(#[trigger] s[i]) by {
            if i > 0 {
                assert(s[i] == d[i - 1]);
            }
        }
    }
    assert(forall|i: int| 0 <= i < s.len() ==> digit_value(#[trigger] s[i]) < 16) by {
        assert(forall|i: int| 0 <= i < s.len() ==> is_lower_hex(#[trigger] s[i]));
    }
    let w = window(s);
    assert(forall|j: int| 0 <= j < s.len() ==> w[j] == s[j] && s[j] != 0);
    lemma_text_of(w, s.len() as int);
    assert(w.subrange(0, s.len() as int) =~= s);
}

fn digit_to_char(d: u64) -> (c: u8)
    requires
        d < 16,
    ensures
        c == digit_char(d as nat),
{
    if d < 10 {
        (d + 48) as u8
    } else {
        (d + 87) as u8
    }
}

/// The digits of `n` in `radix`, most significant first; none for zero.
fn write_digits(n: u64, radix: u64) -> (r: Vec<u8>)
    requires
        2 <= radix <= 16,
    ensures
        r@ == digits(n as nat, radix as nat),
{
    let mut out: Vec<u8> = Vec::new();
    let mut rest: u64 = n;
    while rest > 0
        invariant
            2 <= radix <= 16,
            digits(n as nat, radix as nat) == digits(rest as nat, radix as nat) + out@,
        decreases rest,
    {
        let c = digit_to_char(rest % radix);
        let ghost before = out@;
        out.insert(0, c);
        assert(digits(rest as nat, radix as nat) == digits((rest / radix) as nat, radix as nat).push(
            c,
        ));
        assert(digits((rest / radix) as nat, radix as nat) + out@ =~= digits(rest as nat, radix as nat)
            + before);
        rest = rest / radix;
    }
    assert(digits(n as nat, radix as nat) =~= out@);
    out
}

/// Decimal and hexadecimal text of an unsigned number.
pub trait UtilsU64: Sized {
    /// The number that the value stands for.
    spec fn number(&self) -> nat;

    /// The value in decimal ASCII digits.
    fn to_ascii(&self) -> (r: Vec<u8>)
        ensures
            r@ == ascii_spec(self.number()),
    ;

    /// The value in lowercase hex digits, an even number of them.
    fn to_hex(&self) -> (r: Vec<u8>)
        ensures
            r@ == hex_spec(self.number()),
    ;
}

impl UtilsU64 for u64 {
    open spec fn number(&self) -> nat {
        *self as nat
    }

    fn to_ascii(&self) -> (r: Vec<u8>) {
        if *self == 0 {
            let mut o: Vec<u8> = Vec::new();
            o.push(48u8);
            assert(o@ =~= seq![48u8]);
            return o;
        }
        write_digits(*self, 10)
    }

    fn to_hex(&self) -> (r: Vec<u8>) {
        let mut o: Vec<u8> = Vec::new();
        if *self == 0 {
            o.push(48u8);
            o.push(48u8);
            assert(o@ =~= seq![48u8, 48u8]);
            return o;
        }
        let mut d = write_digits(*self, 16);
        if d.len() % 2 == 1 {
            o.push(48u8);
        }
        o.append(&mut d);
        proof {
            if digits(*self as nat, 16).len() % 2 == 1 {
                assert(o@ =~= seq![48u8] + digits(*self as nat, 16));
            } else {
                assert(o@ =~= digits(*self as nat, 16));
            }
        }
        o
    }
}

} // verus!
