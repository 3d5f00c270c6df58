use vstd::prelude::*;
use vstd::arithmetic::div_mod::lemma_div_denominator;
use vstd::arithmetic::div_mod::lemma_fundamental_div_mod;
use vstd::arithmetic::div_mod::lemma_fundamental_div_mod_converse;

verus! {

/// Four to the power `k`.
pub open spec fn pow4(k: nat) -> nat
    decreases k,
{
    if k == 0 { 1 } else { 4 * pow4((k - 1) as nat) }
}

/// 1024 to the power `k`.
pub open spec fn pow1024(k: nat) -> nat
    decreases k,
{
    if k == 0 { 1 } else { 1024 * pow1024((k - 1) as nat) }
}

/// The base-4 digit of `c` at position `k` (position 0 is the least significant).
pub open spec fn digit4(c: nat, k: nat) -> nat {
    (c / pow4(k)) % 4
}

/// The base-1024 digit of `c` at position `k`.
pub open spec fn digit1024(c: nat, k: nat) -> nat {
    (c / pow1024(k)) % 1024
}

/// The number of base-4 digits of `c` (0 for 0).
pub open spec fn len4(c: nat) -> nat
    decreases c,
{
    if c == 0 { 0 } else { 1 + len4(c / 4) }
}

/// The number of base-1024 digits of `c` (0 for 0).
pub open spec fn len1024(c: nat) -> nat
    decreases c,
{
    if c == 0 { 0 } else { 1 + len1024(c / 1024) }
}

/// The base-4 digits of `c`, least significant first, up to its last nonzero one.
pub open spec fn digits4(c: nat) -> Seq<nat>
    decreases c,
{
    if c == 0 { seq![] } else { seq![c % 4] + digits4(c / 4) }
}

/// The base-1024 digits of `c`, least significant first, up to its last nonzero one.
pub open spec fn digits1024(c: nat) -> Seq<nat>
    decreases c,
{
    if c == 0 { seq![] } else { seq![c % 1024] + digits1024(c / 1024) }
}

pub proof fn lemma_pow4_pos(k: nat)
    ensures
        pow4(k) >= 1,
    decreases k,
{
    if k > 0 {
        lemma_pow4_pos((k - 1) as nat);
    }
}

pub proof fn lemma_pow1024_pos(k: nat)
    ensures
        pow1024(k) >= 1,
    decreases k,
{
    if k > 0 {
        lemma_pow1024_pos((k - 1) as nat);
    }
}

/// The next digit of `c` is the digit of `c / 4` one place lower.
pub proof fn lemma_digit4_step(c: nat, k: nat)
    ensures
        digit4(c, k + 1) == digit4(c / 4, k),
        digit4(c, 0) == c % 4,
{
    lemma_pow4_pos(k);
    assert(pow4(0) == 1);
    assert(c / 1 == c);
    assert(pow4(k + 1) == 4 * pow4(k));
    lemma_div_denominator(c as int, 4, pow4(k) as int);
}

pub proof fn lemma_digit1024_step(c: nat, k: nat)
    ensures
        digit1024(c, k + 1) == digit1024(c / 1024, k),
        digit1024(c, 0) == c % 1024,
{
    lemma_pow1024_pos(k);
    assert(pow1024(0) == 1);
    assert(c / 1 == c);
    assert(pow1024(k + 1) == 1024 * pow1024(k));
    lemma_div_denominator(c as int, 1024, pow1024(k) as int);
}

/// Digits of a number are the entries of its digit sequence, and zero beyond it.
pub proof fn lemma_digits4_index(c: nat, k: nat)
    ensures
        digits4(c).len() == len4(c),
        k < len4(c) ==> digits4(c)[k as int] == digit4(c, k),
        k >= len4(c) ==> digit4(c, k) == 0,
    decreases c,
{
    lemma_digit4_step(c, 0);
    if c > 0 {
        if k > 0 {
            lemma_digit4_step(c, (k - 1) as nat);
            lemma_digits4_index(c / 4, (k - 1) as nat);
        } else {
            lemma_digits4_index(c / 4, 0);
        }
    } else {
        lemma_pow4_pos(k);
    }
}

pub proof fn lemma_digits1024_index(c: nat, k: nat)
    ensures
        digits1024(c).len() == len1024(c),
        k < len1024(c) ==> digits1024(c)[k as int] == digit1024(c, k),
        k >= len1024(c) ==> digit1024(c, k) == 0,
    decreases c,
{
    lemma_digit1024_step(c, 0);
    if c > 0 {
        if k > 0 {
            lemma_digit1024_step(c, (k - 1) as nat);
            lemma_digits1024_index(c / 1024, (k - 1) as nat);
        } else {
            lemma_digits1024_index(c / 1024, 0);
        }
    } else {
        lemma_pow1024_pos(k);
    }
}

/// A number has at most `k` base-4 digits exactly when it is below `4^k`.
pub proof fn lemma_len4_bound(c: nat, k: nat)
    ensures
        len4(c) <= k <==> c < pow4(k),
    decreases k,
{
    if k == 0 {
    } else if c == 0 {
        lemma_pow4_pos(k);
    } else {
        lemma_len4_bound(c / 4, (k - 1) as nat);
    }
}

pub proof fn lemma_len1024_bound(c: nat, k: nat)
    ensures
        len1024(c) <= k <==> c < pow1024(k),
    decreases k,
{
    if k == 0 {
    } else if c == 0 {
        lemma_pow1024_pos(k);
    } else {
        lemma_len1024_bound(c / 1024, (k - 1) as nat);
    }
}

proof fn lemma_u16_shr2(x: u16, a: u16)
    by (bit_vector)
    requires
        a <= 13,
    ensures
        x >> 0u16 == x,
        x >> 2u16 == x / 4u16,
        x & 3u16 == x % 4u16,
        x >> ((a + 2) as u16) == (x >> 2u16) >> a,
{
}

/// The digit of a 16-bit code at position `k`, read by shifting and masking.
pub proof fn lemma_digit4_shr(x: u16, k: u16)
    requires
        k < 8,
    ensures
        digit4(x as nat, k as nat) == ((x >> ((2 * k) as u16)) & 3u16) as nat,
        digit4(x as nat, 0) == (x & 3u16) as nat,
    decreases k,
{
    lemma_u16_shr2(x, 0);
    lemma_digit4_step(x as nat, 0);
    if k > 0 {
        let km: u16 = (k - 1) as u16;
        lemma_u16_shr2(x, (2 * km) as u16);
        lemma_digit4_step(x as nat, km as nat);
        let y: u16 = x / 4u16;
        lemma_digit4_shr(y, km);
        assert(y as nat == (x as nat) / 4);
        assert((2 * k) as u16 == ((2 * km) as u16 + 2) as u16);
        assert(x >> ((2 * k) as u16) == y >> ((2 * km) as u16));
        assert(digit4(x as nat, k as nat) == digit4(y as nat, km as nat));
    }
}

proof fn lemma_u64_shr10(x: u64, a: u64)
    by (bit_vector)
    requires
        a <= 53,
    ensures
        x >> 0u64 == x,
        x >> 10u64 == x / 1024u64,
        x & 1023u64 == x % 1024u64,
        x >> ((a + 10) as u64) == (x >> 10u64) >> a,
{
}

/// The digit of a 64-bit code at position `k`, read by shifting and masking.
pub proof fn lemma_digit1024_shr(x: u64, k: u64)
    requires
        k < 7,
    ensures
        digit1024(x as nat, k as nat) == ((x >> ((10 * k) as u64)) & 1023u64) as nat,
        digit1024(x as nat, 0) == (x & 1023u64) as nat,
    decreases k,
{
    lemma_u64_shr10(x, 0);
    lemma_digit1024_step(x as nat, 0);
    if k > 0 {
        let km: u64 = (k - 1) as u64;
        lemma_u64_shr10(x, (10 * km) as u64);
        lemma_digit1024_step(x as nat, km as nat);
        let y: u64 = x / 1024u64;
        lemma_digit1024_shr(y, km);
        assert(y as nat == (x as nat) / 1024);
        assert((10 * k) as u64 == ((10 * km) as u64 + 10) as u64);
        assert(x >> ((10 * k) as u64) == y >> ((10 * km) as u64));
        assert(digit1024(x as nat, k as nat) == digit1024(y as nat, km as nat));
    }
}

} // verus!
