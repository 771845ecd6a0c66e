//! 256-bit unsigned words, the value type of the virtual machine.
//!
//! A word is kept as four little-endian 64-bit limbs, the layout that
//! `primitive_types::U256` uses; its arithmetic is done by that crate.

use primitive_types::U256;
use vstd::prelude::*;

verus! {

/// 2^64, the base of one limb.
pub open spec fn limb_base() -> nat {
    0x1_0000_0000_0000_0000
}

/// 2^256, one more than the largest word.
pub open spec fn word_modulus() -> nat {
    limb_base() * limb_base() * limb_base() * limb_base()
}

/// The number that a sequence of bytes denotes when read little-endian.
pub open spec fn le_value(bytes: Seq<u8>) -> nat
    decreases bytes.len(),
{
    if bytes.len() == 0 {
        0
    } else {
        bytes[0] as nat + 256 * le_value(bytes.drop_first())
    }
}

/// The `n` low bytes of `v`, least significant first.
pub open spec fn le_bytes(v: nat, n: nat) -> Seq<u8>
    decreases n,
{
    if n == 0 {
        Seq::empty()
    } else {
        seq![(v % 256) as u8] + le_bytes(v / 256, (n - 1) as nat)
    }
}

/// The word whose limbs are the base-2^64 digits of `v` (reduced modulo 2^256).
pub open spec fn word_of(v: nat) -> Word {
    Word {
        l0: (v % limb_base()) as u64,
        l1: ((v / limb_base()) % limb_base()) as u64,
        l2: ((v / (limb_base() * limb_base())) % limb_base()) as u64,
        l3: ((v / (limb_base() * limb_base() * limb_base())) % limb_base()) as u64,
    }
}

/// 256^n, one more than the largest number that `n` bytes hold.
pub open spec fn le_limit(n: nat) -> nat
    decreases n,
{
    if n == 0 {
        1
    } else {
        256 * le_limit((n - 1) as nat)
    }
}

/// Reading back the bytes of a number that fits gives the number.
pub proof fn lemma_le_round_trip(v: nat, n: nat)
    requires
        v < le_limit(n),
    ensures
        le_value(le_bytes(v, n)) == v,
        le_bytes(v, n).len() == n,
    decreases n,
{
    if n > 0 {
        lemma_le_round_trip(v / 256, (n - 1) as nat);
        assert(le_bytes(v, n).drop_first() == le_bytes(v / 256, (n - 1) as nat));
    }
}

#[derive(Clone, Copy, PartialEq, Eq, Debug, Structural)]
pub struct Word {
    pub l0: u64,
    pub l1: u64,
    pub l2: u64,
    pub l3: u64,
}

impl Word {
    /// The number the word stands for.
    pub open spec fn val(self) -> nat {
        self.l0 as nat + self.l1 as nat * limb_base() + self.l2 as nat
            * (limb_base() * limb_base()) + self.l3 as nat * (limb_base() * limb_base()
            * limb_base())
    }

    pub fn zero() -> (r: Word)
        ensures
            r.val() == 0,
    {
        Word { l0: 0, l1: 0, l2: 0, l3: 0 }
    }

    pub fn from_u64(x: u64) -> (r: Word)
        ensures
            r.val() == x,
            r == word_of(x as nat),
    {
        let ghost v = x as nat;
        let ghost b = limb_base();
        assert(v % b == v && v / b == 0) by (nonlinear_arith)
            requires
                v < b,
                b > 0,
        ;
        assert(v / (b * b) == 0 && v / (b * b * b) == 0) by (nonlinear_arith)
            requires
                v < b,
                b > 1,
        ;
        Word { l0: x, l1: 0, l2: 0, l3: 0 }
    }

    /// The value as a `u64`, where it fits.
    pub fn to_u64(&self) -> (r: Option<u64>)
        ensures
            r matches Some(x) ==> x == self.val(),
            r is None <==> self.val() >= limb_base(),
    {
        proof {
            lemma_val_bounds(*self);
        }
        if self.l1 == 0 && self.l2 == 0 && self.l3 == 0 {
            Some(self.l0)
        } else {
            None
        }
    }
}

pub proof fn lemma_val_bounds(w: Word)
    ensures
        w.val() < word_modulus(),
        w.val() >= limb_base() <==> (w.l1 != 0 || w.l2 != 0 || w.l3
            != 0),
{
    let b = limb_base();
    let l0 = w.l0 as nat;
    let l1 = w.l1 as nat;
    let l2 = w.l2 as nat;
    let l3 = w.l3 as nat;
    assert(l1 * b <= (b - 1) * b) by (nonlinear_arith)
        requires
            l1 < b,
    ;
    assert(l2 * (b * b) <= (b - 1) * (b * b)) by (nonlinear_arith)
        requires
            l2 < b,
    ;
    assert(l3 * (b * b * b) <= (b - 1) * (b * b * b)) by (nonlinear_arith)
        requires
            l3 < b,
    ;
    assert(l1 != 0 ==> l1 * b >= b) by (nonlinear_arith);
    assert(l1 == 0 ==> l1 * b == 0) by (nonlinear_arith);
    assert(l2 == 0 ==> l2 * (b * b) == 0) by (nonlinear_arith);
    assert(l3 == 0 ==> l3 * (b * b * b) == 0) by (nonlinear_arith);
    assert(l2 != 0 ==> l2 * (b * b) >= b) by (nonlinear_arith)
        requires
            b > 1,
    ;
    assert(l3 != 0 ==> l3 * (b * b * b) >= b) by (nonlinear_arith)
        requires
            b > 1,
    ;
}

/// Relies on `U256::overflowing_add`: the sum with the carry out of the top limb dropped.
#[verifier::external_body]
pub(crate) fn wrapping_add(a: Word, b: Word) -> (r: Word)
    ensures
        r.val() == (a.val() + b.val()) % word_modulus(),
        r == word_of((a.val() + b.val()) % word_modulus()),
{
    let u = U256([a.l0, a.l1, a.l2, a.l3]).overflowing_add(U256([b.l0, b.l1, b.l2, b.l3])).0;
    Word { l0: u.0[0], l1: u.0[1], l2: u.0[2], l3: u.0[3] }
}

/// Relies on `U256::overflowing_sub`: the difference with the borrow dropped.
#[verifier::external_body]
pub(crate) fn wrapping_sub(a: Word, b: Word) -> (r: Word)
    ensures
        r.val() == (a.val() - b.val()) % (word_modulus() as int),
        r == word_of(((a.val() - b.val()) % (word_modulus() as int)) as nat),
{
    let u = U256([a.l0, a.l1, a.l2, a.l3]).overflowing_sub(U256([b.l0, b.l1, b.l2, b.l3])).0;
    Word { l0: u.0[0], l1: u.0[1], l2: u.0[2], l3: u.0[3] }
}

/// Relies on `U256::overflowing_mul`: the low 256 bits of the product.
#[verifier::external_body]
pub(crate) fn wrapping_mul(a: Word, b: Word) -> (r: Word)
    ensures
        r.val() == (a.val() * b.val()) % word_modulus(),
        r == word_of((a.val() * b.val()) % word_modulus()),
{
    let u = U256([a.l0, a.l1, a.l2, a.l3]).overflowing_mul(U256([b.l0, b.l1, b.l2, b.l3])).0;
    Word { l0: u.0[0], l1: u.0[1], l2: u.0[2], l3: u.0[3] }
}

/// Relies on `U256`'s `/` (through `div_mod`): the floor of the quotient; it
/// panics on a zero divisor.
#[verifier::external_body]
pub(crate) fn floor_div(a: Word, b: Word) -> (r: Word)
    requires
        b.val() != 0,
    ensures
        r.val() == a.val() / b.val(),
        r == word_of(a.val() / b.val()),
{
    let u = U256([a.l0, a.l1, a.l2, a.l3]) / U256([b.l0, b.l1, b.l2, b.l3]);
    Word { l0: u.0[0], l1: u.0[1], l2: u.0[2], l3: u.0[3] }
}

/// Relies on `U256`'s `Ord`, which compares the limbs from the most significant down.
#[verifier::external_body]
pub(crate) fn less_than(a: Word, b: Word) -> (r: bool)
    ensures
        r == (a.val() < b.val()),
{
    U256([a.l0, a.l1, a.l2, a.l3]) < U256([b.l0, b.l1, b.l2, b.l3])
}

/// Relies on `U256`'s `PartialEq`, which compares the limbs.
#[verifier::external_body]
pub(crate) fn equal(a: Word, b: Word) -> (r: bool)
    ensures
        r == (a.val() == b.val()),
{
    U256([a.l0, a.l1, a.l2, a.l3]) == U256([b.l0, b.l1, b.l2, b.l3])
}

/// Relies on `U256::is_zero`.
#[verifier::external_body]
pub(crate) fn is_zero(a: Word) -> (r: bool)
    ensures
        r == (a.val() == 0),
{
    U256([a.l0, a.l1, a.l2, a.l3]).is_zero()
}

/// Relies on `U256::from_little_endian`: it reads at most 32 bytes, least
/// significant first, and panics on a longer slice.
#[verifier::external_body]
pub(crate) fn from_le_slice(bytes: &[u8]) -> (r: Word)
    requires
        bytes@.len() <= 32,
    ensures
        r.val() == le_value(bytes@),
        r == word_of(le_value(bytes@)),
{
    let u = U256::from_little_endian(bytes);
    Word { l0: u.0[0], l1: u.0[1], l2: u.0[2], l3: u.0[3] }
}

/// Relies on `U256::to_little_endian`: the 32 bytes of the word, least significant first.
#[verifier::external_body]
pub(crate) fn to_le_array(a: Word) -> (r: [u8; 32])
    ensures
        r@ == le_bytes(a.val(), 32),
{
    let mut bytes = [0u8; 32];
    U256([a.l0, a.l1, a.l2, a.l3]).to_little_endian(&mut bytes);
    bytes
}

} // verus!
