//! Bit strings as the wire format sees them: most significant bit first.
use vstd::prelude::*;

verus! {

/// 2 to the power `n`.
pub open spec fn two_pow(n: nat) -> nat
    decreases n,
{
    if n == 0 {
        1
    } else {
        2 * two_pow((n - 1) as nat)
    }
}

/// The `n` low bits of `v`, most significant first.
pub open spec fn bits_of_value(v: nat, n: nat) -> Seq<bool>
    decreases n,
{
    if n == 0 {
        Seq::empty()
    } else {
        bits_of_value(v / 2, (n - 1) as nat).push(v % 2 == 1)
    }
}

/// The unsigned integer that a bit string spells, most significant bit first.
pub open spec fn value_of_bits(b: Seq<bool>) -> nat
    decreases b.len(),
{
    if b.len() == 0 {
        0
    } else {
        2 * value_of_bits(b.drop_last()) + (if b.last() { 1nat } else { 0nat })
    }
}

/// The bits of a byte string, each byte most significant bit first.
pub open spec fn bits_of_bytes(b: Seq<u8>) -> Seq<bool>
    decreases b.len(),
{
    if b.len() == 0 {
        Seq::empty()
    } else {
        bits_of_bytes(b.drop_last()) + bits_of_value(b.last() as nat, 8)
    }
}

/// `n` zero bits.
pub open spec fn zero_bits(n: nat) -> Seq<bool> {
    Seq::new(n, |i: int| false)
}

/// How many zero bits bring a string of `len` bits to a whole number of bytes.
pub open spec fn padding_for(len: nat) -> nat {
    ((8 - len % 8) % 8) as nat
}

/// A bit string completed with zero bits to a whole number of bytes.
pub open spec fn byte_padded(b: Seq<bool>) -> Seq<bool> {
    b + zero_bits(padding_for(b.len()))
}

pub proof fn lemma_two_pow_positive(n: nat)
    ensures
        two_pow(n) >= 1,
    decreases n,
{
    if n > 0 {
        lemma_two_pow_positive((n - 1) as nat);
    }
}

pub proof fn lemma_two_pow_monotonic(a: nat, b: nat)
    requires
        a <= b,
    ensures
        two_pow(a) <= two_pow(b),
    decreases b,
{
    if a < b {
        lemma_two_pow_monotonic(a, (b - 1) as nat);
        lemma_two_pow_positive((b - 1) as nat);
    }
}

pub proof fn lemma_bits_of_value_len(v: nat, n: nat)
    ensures
        bits_of_value(v, n).len() == n,
    decreases n,
{
    if n > 0 {
        lemma_bits_of_value_len(v / 2, (n - 1) as nat);
    }
}

pub proof fn lemma_bits_of_bytes_len(b: Seq<u8>)
    ensures
        bits_of_bytes(b).len() == 8 * b.len(),
    decreases b.len(),
{
    if b.len() > 0 {
        lemma_bits_of_bytes_len(b.drop_last());
        lemma_bits_of_value_len(b.last() as nat, 8);
    }
}

/// A value below `2^n` is read back from its `n` bits.
pub proof fn lemma_value_of_bits_of_value(v: nat, n: nat)
    requires
        v < two_pow(n),
    ensures
        value_of_bits(bits_of_value(v, n)) == v,
    decreases n,
{
    if n > 0 {
        let b = bits_of_value(v, n);
        assert(b.drop_last() =~= bits_of_value(v / 2, (n - 1) as nat));
        lemma_value_of_bits_of_value(v / 2, (n - 1) as nat);
    }
}

pub proof fn lemma_padding_bound(len: nat)
    ensures
        padding_for(len) < 8,
        (len + padding_for(len)) % 8 == 0,
{
}

} // verus!
