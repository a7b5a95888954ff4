use vstd::prelude::*;

verus! {

/// `2^64`.
pub open spec fn word() -> nat {
    0x1_0000_0000_0000_0000
}

/// `2^256 - 1`, the largest value of a `Uint256`.
pub open spec fn max256() -> nat {
    (word() * word() * word() * word() - 1) as nat
}

/// A 256-bit unsigned integer as four 64-bit words, least significant
/// first, as `primitive_types::U256` lays them out.
#[derive(Clone, Copy, Debug, PartialEq, Eq, Structural)]
pub struct Uint256 {
    pub w0: u64,
    pub w1: u64,
    pub w2: u64,
    pub w3: u64,
}

/// The `Uint256` that holds a `u128`.
pub open spec fn u256_of(x: u128) -> Uint256 {
    Uint256 { w0: (x as nat % word()) as u64, w1: (x as nat / word()) as u64, w2: 0, w3: 0 }
}

impl Uint256 {
    pub open spec fn value(self) -> nat {
        self.w0 as nat + word() * (self.w1 as nat + word() * (self.w2 as nat + word()
            * self.w3 as nat))
    }

    pub fn zero() -> (r: Self)
        ensures
            r.value() == 0,
    {
        Uint256 { w0: 0, w1: 0, w2: 0, w3: 0 }
    }

    pub fn from_u128(x: u128) -> (r: Self)
        ensures
            r == u256_of(x),
            r.value() == x,
    {
        let r = Uint256 { w0: (x % 0x1_0000_0000_0000_0000) as u64, w1: (x / 0x1_0000_0000_0000_0000) as u64, w2: 0, w3: 0 };
        assert(x == (x % 0x1_0000_0000_0000_0000) + 0x1_0000_0000_0000_0000 * (x / 0x1_0000_0000_0000_0000));
        r
    }

    /// The value as a `u128`, when it fits.
    pub fn as_u128(&self) -> (r: Option<u128>)
        ensures
            r is Some <==> self.value() <= u128::MAX,
            r is Some ==> r->Some_0 == self.value(),
    {
        proof {
            lemma_high_words(*self);
        }
        if self.w2 == 0 && self.w3 == 0 {
            let r = self.w0 as u128 + 0x1_0000_0000_0000_0000 * (self.w1 as u128);
            Some(r)
        } else {
            None
        }
    }

    pub fn is_zero(&self) -> (r: bool)
        ensures
            r == (self.value() == 0),
    {
        proof {
            lemma_high_words(*self);
        }
        self.w0 == 0 && self.w1 == 0 && self.w2 == 0 && self.w3 == 0
    }
}

proof fn lemma_high_words(x: Uint256)
    ensures
        x.value() <= max256(),
        (x.w2 == 0 && x.w3 == 0) <==> x.value() <= u128::MAX,
        (x.w1 == 0 && x.w2 == 0 && x.w3 == 0) <==> x.value() < word(),
        x.value() == 0 <==> (x.w0 == 0 && x.w1 == 0 && x.w2 == 0 && x.w3 == 0),
{
    let w = word();
    let a = x.w0 as nat;
    let b = x.w1 as nat;
    let c = x.w2 as nat;
    let d = x.w3 as nat;
    assert(a < w && b < w && c < w && d < w);
    assert(u128::MAX == w * w - 1);
    assert(x.value() == a + w * (b + w * (c + w * d)));
    assert(a + w * (b + w * (c + w * d)) <= w * w * w * w - 1) by (nonlinear_arith)
        requires
            a < w,
            b < w,
            c < w,
            d < w,
            w > 0,
    ;
    assert((c == 0 && d == 0) <==> a + w * (b + w * (c + w * d)) <= w * w - 1) by (nonlinear_arith)
        requires
            a < w,
            b < w,
            w > 0,
    ;
    assert((b == 0 && c == 0 && d == 0) <==> a + w * (b + w * (c + w * d)) < w) by (nonlinear_arith)
        requires
            a < w,
            w > 0,
    ;
    assert((a + w * (b + w * (c + w * d)) == 0) <==> (a == 0 && b == 0 && c == 0 && d == 0)) by (nonlinear_arith)
        requires
            w > 0,
    ;
}

/// The value is below `2^64`: its low word.
pub fn low_word(x: &Uint256) -> (r: u64)
    requires
        x.value() < word(),
    ensures
        r == x.value(),
{
    proof {
        lemma_high_words(*x);
    }
    x.w0
}

pub proof fn lemma_value_bound(x: Uint256)
    ensures
        x.value() <= max256(),
{
    lemma_high_words(x);
}

/// Relies on `U256::checked_add`: the sum, or `None` above `2^256 - 1`.
#[verifier::external_body]
pub fn checked_add(a: Uint256, b: Uint256) -> (r: Option<Uint256>)
    ensures
        match r {
            Some(x) => x.value() == a.value() + b.value(),
            None => a.value() + b.value() > max256(),
        },
{
    primitive_types::U256([a.w0, a.w1, a.w2, a.w3]).checked_add(
        primitive_types::U256([b.w0, b.w1, b.w2, b.w3]),
    ).map(|x| Uint256 { w0: x.0[0], w1: x.0[1], w2: x.0[2], w3: x.0[3] })
}

/// Relies on `U256::checked_sub`: the difference, or `None` below zero.
#[verifier::external_body]
pub fn checked_sub(a: Uint256, b: Uint256) -> (r: Option<Uint256>)
    ensures
        match r {
            Some(x) => b.value() <= a.value() && x.value() == a.value() - b.value(),
            None => a.value() < b.value(),
        },
{
    primitive_types::U256([a.w0, a.w1, a.w2, a.w3]).checked_sub(
        primitive_types::U256([b.w0, b.w1, b.w2, b.w3]),
    ).map(|x| Uint256 { w0: x.0[0], w1: x.0[1], w2: x.0[2], w3: x.0[3] })
}

/// Relies on `U256::checked_mul`: the product, or `None` above `2^256 - 1`.
#[verifier::external_body]
pub fn checked_mul(a: Uint256, b: Uint256) -> (r: Option<Uint256>)
    ensures
        match r {
            Some(x) => x.value() == a.value() * b.value(),
            None => a.value() * b.value() > max256(),
        },
{
    primitive_types::U256([a.w0, a.w1, a.w2, a.w3]).checked_mul(
        primitive_types::U256([b.w0, b.w1, b.w2, b.w3]),
    ).map(|x| Uint256 { w0: x.0[0], w1: x.0[1], w2: x.0[2], w3: x.0[3] })
}

/// Relies on `U256::div_mod`: quotient and remainder; it panics on a zero
/// divisor, which `requires` leaves out.
#[verifier::external_body]
pub fn div_mod(a: Uint256, b: Uint256) -> (r: (Uint256, Uint256))
    requires
        b.value() > 0,
    ensures
        r.0.value() == a.value() / b.value(),
        r.1.value() == a.value() % b.value(),
{
    let (q, m) = primitive_types::U256([a.w0, a.w1, a.w2, a.w3]).div_mod(
        primitive_types::U256([b.w0, b.w1, b.w2, b.w3]),
    );
    (
        Uint256 { w0: q.0[0], w1: q.0[1], w2: q.0[2], w3: q.0[3] },
        Uint256 { w0: m.0[0], w1: m.0[1], w2: m.0[2], w3: m.0[3] },
    )
}

/// Relies on `U256::saturating_add`: the sum, or `2^256 - 1` above it.
#[verifier::external_body]
pub fn saturating_add(a: Uint256, b: Uint256) -> (r: Uint256)
    ensures
        r.value() == if a.value() + b.value() <= max256() {
            a.value() + b.value()
        } else {
            max256()
        },
{
    let x = primitive_types::U256([a.w0, a.w1, a.w2, a.w3]).saturating_add(
        primitive_types::U256([b.w0, b.w1, b.w2, b.w3]),
    );
    Uint256 { w0: x.0[0], w1: x.0[1], w2: x.0[2], w3: x.0[3] }
}

/// Relies on `U256::saturating_sub`: the difference, or zero below it.
#[verifier::external_body]
pub fn saturating_sub(a: Uint256, b: Uint256) -> (r: Uint256)
    ensures
        r.value() == if b.value() <= a.value() {
            (a.value() - b.value()) as nat
        } else {
            0
        },
{
    let x = primitive_types::U256([a.w0, a.w1, a.w2, a.w3]).saturating_sub(
        primitive_types::U256([b.w0, b.w1, b.w2, b.w3]),
    );
    Uint256 { w0: x.0[0], w1: x.0[1], w2: x.0[2], w3: x.0[3] }
}

/// Whether `a <= b`.
pub fn le(a: Uint256, b: Uint256) -> (r: bool)
    ensures
        r == (a.value() <= b.value()),
{
    checked_sub(b, a).is_some()
}

/// `a + b`, which the caller keeps in range.
pub fn add(a: Uint256, b: Uint256) -> (r: Uint256)
    requires
        a.value() + b.value() <= max256(),
    ensures
        r.value() == a.value() + b.value(),
{
    match checked_add(a, b) {
        Some(x) => x,
        None => a,
    }
}

/// `a - b`, which the caller keeps non-negative.
pub fn sub(a: Uint256, b: Uint256) -> (r: Uint256)
    requires
        b.value() <= a.value(),
    ensures
        r.value() == a.value() - b.value(),
{
    match checked_sub(a, b) {
        Some(x) => x,
        None => a,
    }
}

/// `a * b`, which the caller keeps in range.
pub fn mul(a: Uint256, b: Uint256) -> (r: Uint256)
    requires
        a.value() * b.value() <= max256(),
    ensures
        r.value() == a.value() * b.value(),
{
    match checked_mul(a, b) {
        Some(x) => x,
        None => a,
    }
}

} // verus!
