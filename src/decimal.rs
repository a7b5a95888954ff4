use vstd::arithmetic::div_mod::{lemma_div_denominator, lemma_fundamental_div_mod, lemma_mod_breakdown};
use crate::uint256::{checked_add, checked_mul, div_mod, low_word, max256, Uint256};
use vstd::prelude::*;

verus! {

/// Error returned when a string does not hold a decimal number.
#[derive(Copy, Clone, Debug, PartialEq, Eq, Structural)]
pub enum ParseStrError {
    InvalidInput,
}

/// A non-negative decimal number with `P` fractional digits, stored as the
/// integer `value * 10^P`.
#[derive(Clone, Copy, Debug, PartialEq, Eq)]
pub struct UDecimal<const P: u8> {
    pub internal: Uint256,
}

pub open spec fn pow10(n: nat) -> nat
    decreases n,
{
    if n == 0 {
        1
    } else {
        10 * pow10((n - 1) as nat)
    }
}

pub open spec fn is_digit(c: char) -> bool {
    '0' <= c && c <= '9'
}

pub open spec fn all_digits(s: Seq<char>) -> bool {
    forall|i: int| 0 <= i < s.len() ==> is_digit(#[trigger] s[i])
}

pub open spec fn has_digit(s: Seq<char>) -> bool {
    exists|i: int| 0 <= i < s.len() && is_digit(#[trigger] s[i])
}

pub open spec fn digit_value(c: char) -> nat {
    if is_digit(c) {
        (c as u32 - '0' as u32) as nat
    } else {
        0
    }
}

pub open spec fn digit_char(d: nat) -> char {
    ((d % 10) + '0' as u32) as char
}

/// The number that a string of decimal digits spells, most significant first.
pub open spec fn digits_value(s: Seq<char>) -> nat
    decreases s.len(),
{
    if s.len() == 0 {
        0
    } else {
        10 * digits_value(s.drop_last()) + digit_value(s.last())
    }
}

/// The decimal digits of `n`, most significant first, without leading zeros.
pub open spec fn dec_digits(n: nat) -> Seq<char>
    decreases n,
{
    if n < 10 {
        seq![digit_char(n)]
    } else {
        dec_digits(n / 10).push(digit_char(n % 10))
    }
}

/// The digit of `v` in the place of `10^k`.
pub open spec fn digit_at(v: nat, k: nat) -> nat {
    (v / pow10(k)) % 10
}

/// The `p` digits of `v` below the point, for precision `p`.
pub open spec fn fraction_digits(v: nat, p: nat) -> Seq<char> {
    Seq::new(p, |j: int| digit_char(digit_at(v, (p - 1 - j) as nat)))
}

pub open spec fn strip_trailing_zeros(s: Seq<char>) -> Seq<char>
    decreases s.len(),
{
    if s.len() > 0 && s.last() == '0' {
        strip_trailing_zeros(s.drop_last())
    } else {
        s
    }
}

pub open spec fn zeros(n: nat) -> Seq<char> {
    Seq::new(n, |i: int| '0')
}

/// How a value of precision `p` with internal integer `v` is written: the
/// integer part, then a point and the fractional digits without trailing
/// zeros, when any are left.
pub open spec fn render_spec(v: nat, p: nat) -> Seq<char> {
    let frac = strip_trailing_zeros(fraction_digits(v, p));
    if frac.len() == 0 {
        dec_digits(v / pow10(p))
    } else {
        dec_digits(v / pow10(p)) + seq!['.'] + frac
    }
}

/// Index of the first '.' in `s`, or its length when there is none.
pub open spec fn point_index(s: Seq<char>) -> nat
    decreases s.len(),
{
    if s.len() == 0 {
        0
    } else if s[0] == '.' {
        0
    } else {
        1 + point_index(s.drop_first())
    }
}

/// The characters after the first '.', or none.
pub open spec fn fraction_part(s: Seq<char>) -> Seq<char> {
    let k = point_index(s);
    if k < s.len() {
        s.skip((k + 1) as int)
    } else {
        Seq::empty()
    }
}

/// `s` cut or filled with '0' to exactly `p` characters.
pub open spec fn fit(s: Seq<char>, p: nat) -> Seq<char> {
    if s.len() >= p {
        s.take(p as int)
    } else {
        s + zeros((p - s.len()) as nat)
    }
}

/// The digits that make up the internal integer of a parsed value: the part
/// before the point, then the first `p` digits after it, filled with zeros.
pub open spec fn scaled_digits(s: Seq<char>, p: nat) -> Seq<char> {
    s.take(point_index(s) as int) + fit(fraction_part(s), p)
}

/// The internal integer that `s` parses to at precision `p`, if it parses.
pub open spec fn parse_spec(s: Seq<char>, p: nat) -> Option<nat> {
    let d = scaled_digits(s, p);
    if has_digit(s) && all_digits(d) && digits_value(d) <= max256() {
        Some(digits_value(d))
    } else {
        None
    }
}

proof fn lemma_pow10_positive(n: nat)
    ensures
        pow10(n) > 0,
    decreases n,
{
    if n > 0 {
        lemma_pow10_positive((n - 1) as nat);
    }
}

proof fn lemma_point_index(s: Seq<char>, i: int)
    requires
        0 <= i <= s.len(),
        forall|j: int| 0 <= j < i ==> s[j] != '.',
        i == s.len() || s[i] == '.',
    ensures
        point_index(s) == i,
    decreases s.len(),
{
    if s.len() > 0 && s[0] != '.' {
        let t = s.drop_first();
        assert forall|j: int| 0 <= j < i - 1 implies t[j] != '.' by {
            assert(t[j] == s[j + 1]);
        }
        if i < s.len() {
            assert(t[i - 1] == s[i]);
        }
        lemma_point_index(t, i - 1);
    }
}

proof fn lemma_digits_value_grows(s: Seq<char>, t: Seq<char>)
    ensures
        digits_value(s + t) >= digits_value(s),
    decreases t.len(),
{
    if t.len() > 0 {
        let u = s + t;
        assert(u.drop_last() == s + t.drop_last());
        lemma_digits_value_grows(s, t.drop_last());
    }
}

proof fn lemma_digit_char(d: nat)
    ensures
        is_digit(digit_char(d)),
        digit_value(digit_char(d)) == d % 10,
{
}

proof fn lemma_dec_digits(n: nat)
    ensures
        all_digits(dec_digits(n)),
        digits_value(dec_digits(n)) == n,
        dec_digits(n).len() >= 1,
    decreases n,
{
    lemma_digit_char(n);
    if n < 10 {
        assert(seq![digit_char(n)].drop_last() == Seq::<char>::empty());
        assert(digits_value(Seq::<char>::empty()) == 0);
    } else {
        lemma_digit_char(n % 10);
        lemma_dec_digits(n / 10);
        let s = dec_digits(n / 10).push(digit_char(n % 10));
        assert(s.drop_last() == dec_digits(n / 10));
        assert(s.last() == digit_char(n % 10));
        assert(digits_value(s) == 10 * (n / 10) + n % 10);
        assert(n == 10 * (n / 10) + n % 10);
    }
}

proof fn lemma_digits_value_concat(a: Seq<char>, b: Seq<char>)
    ensures
        digits_value(a + b) == digits_value(a) * pow10(b.len()) + digits_value(b),
    decreases b.len(),
{
    if b.len() == 0 {
        assert(a + b == a);
        assert(pow10(0) == 1);
        assert(digits_value(b) == 0);
    } else {
        let c = b.drop_last();
        assert((a + b).drop_last() == a + c);
        assert((a + b).last() == b.last());
        lemma_digits_value_concat(a, c);
        let x = digits_value(a);
        let y = pow10(c.len());
        assert(pow10(b.len()) == 10 * y);
        assert(10 * (x * y + digits_value(c)) == x * (10 * y) + 10 * digits_value(c))
            by (nonlinear_arith);
    }
}

proof fn lemma_fraction_value(v: nat, p: nat)
    ensures
        all_digits(fraction_digits(v, p)),
        digits_value(fraction_digits(v, p)) == v % pow10(p),
    decreases p,
{
    let f = fraction_digits(v, p);
    assert forall|i: int| 0 <= i < f.len() implies is_digit(#[trigger] f[i]) by {
        lemma_digit_char(digit_at(v, (p - 1 - i) as nat));
    }
    if p == 0 {
        assert(f.len() == 0);
        assert(pow10(0) == 1);
        assert(v % 1 == 0);
    } else {
        let q = (p - 1) as nat;
        let g = fraction_digits(v, q);
        let c = digit_char(digit_at(v, q));
        assert(f == seq![c] + g);
        lemma_fraction_value(v, q);
        lemma_digits_value_concat(seq![c], g);
        assert(seq![c].drop_last() == Seq::<char>::empty());
        lemma_digit_char(digit_at(v, q));
        lemma_pow10_positive(q);
        assert(pow10(p) == pow10(q) * 10);
        lemma_mod_breakdown(v as int, pow10(q) as int, 10);
        assert(digit_at(v, q) * pow10(q) == pow10(q) * ((v / pow10(q)) % 10)) by (nonlinear_arith)
            requires
                digit_at(v, q) == (v / pow10(q)) % 10,
        ;
        assert(digits_value(Seq::<char>::empty()) == 0);
        assert(digits_value(seq![c]) == digit_at(v, q));
        assert(digits_value(f) == digit_at(v, q) * pow10(q) + v % pow10(q));
    }
}

proof fn lemma_strip_pad(s: Seq<char>)
    ensures
        strip_trailing_zeros(s).len() <= s.len(),
        s == strip_trailing_zeros(s) + zeros((s.len() - strip_trailing_zeros(s).len()) as nat),
    decreases s.len(),
{
    if s.len() > 0 && s.last() == '0' {
        let t = s.drop_last();
        lemma_strip_pad(t);
        let r = strip_trailing_zeros(t);
        assert(s == t.push('0'));
        assert(zeros((s.len() - r.len()) as nat) == zeros((t.len() - r.len()) as nat).push('0'));
    } else {
        assert(s == s + zeros(0));
    }
}

/// Writing a value and parsing the text back at the same precision gives the
/// same value.
pub proof fn lemma_render_parse_round_trip(v: nat, p: nat)
    requires
        v <= max256(),
    ensures
        parse_spec(render_spec(v, p), p) == Some(v),
{
    let fd = fraction_digits(v, p);
    let fr = strip_trailing_zeros(fd);
    let int_part = dec_digits(v / pow10(p));
    let r = render_spec(v, p);
    lemma_dec_digits(v / pow10(p));
    lemma_fraction_value(v, p);
    lemma_strip_pad(fd);
    lemma_pow10_positive(p);
    assert forall|j: int| 0 <= j < int_part.len() implies int_part[j] != '.' by {
        assert(is_digit(int_part[j]));
    }
    if fr.len() == 0 {
        assert(r == int_part);
        lemma_point_index(r, r.len() as int);
        assert(fraction_part(r) == Seq::<char>::empty());
        assert(fit(Seq::<char>::empty(), p) == zeros(p));
        assert(fd == zeros(p)) by {
            assert(fd == fr + zeros(p));
        }
    } else {
        assert(r == int_part + seq!['.'] + fr);
        assert(r[int_part.len() as int] == '.');
        lemma_point_index(r, int_part.len() as int);
        assert(fraction_part(r) == fr);
        if fr.len() == p {
            assert(fr + zeros(0) == fr);
            assert(fr.take(p as int) == fr);
        }
        assert(fit(fr, p) == fd);
    }
    assert(r.take(int_part.len() as int) == int_part);
    let d = scaled_digits(r, p);
    assert(d == int_part + fd);
    assert(all_digits(d)) by {
        assert forall|i: int| 0 <= i < d.len() implies is_digit(#[trigger] d[i]) by {
            if i < int_part.len() {
                assert(d[i] == int_part[i]);
            } else {
                assert(d[i] == fd[i - int_part.len()]);
            }
        }
    }
    assert(is_digit(r[0]));
    lemma_digits_value_concat(int_part, fd);
    lemma_fundamental_div_mod(v as int, pow10(p) as int);
    assert((v / pow10(p)) * pow10(p) == pow10(p) * (v / pow10(p))) by (nonlinear_arith);
}

proof fn lemma_strip_trailing_zeros(s: Seq<char>, m: int)
    requires
        0 <= m <= s.len(),
        forall|j: int| m <= j < s.len() ==> s[j] == '0',
        m == 0 || s[m - 1] != '0',
    ensures
        strip_trailing_zeros(s) == s.take(m),
    decreases s.len(),
{
    if s.len() > m {
        let t = s.drop_last();
        assert(t.take(m) == s.take(m));
        lemma_strip_trailing_zeros(t, m);
    } else {
        assert(s.take(m) == s);
    }
}

proof fn lemma_pow10_monotone(i: nat, n: nat)
    requires
        i <= n,
    ensures
        pow10(i) <= pow10(n),
    decreases n,
{
    if i < n {
        lemma_pow10_monotone(i, (n - 1) as nat);
        lemma_pow10_positive((n - 1) as nat);
    }
}

fn ten() -> (r: Uint256)
    ensures
        r.value() == 10,
{
    Uint256::from_u128(10)
}

/// `x / 10^n`, rounded down.
fn div_pow10(x: Uint256, n: u8) -> (r: Uint256)
    ensures
        r.value() == x.value() / pow10(n as nat),
{
    let mut q = x;
    let mut i: u8 = 0;
    assert(pow10(0) == 1);
    while i < n
        invariant
            i <= n,
            q.value() == x.value() / pow10(i as nat),
        decreases n - i,
    {
        proof {
            assert(pow10((i + 1) as nat) == pow10(i as nat) * 10);
            lemma_pow10_positive(i as nat);
            lemma_div_denominator(x.value() as int, pow10(i as nat) as int, 10);
        }
        q = div_mod(q, ten()).0;
        i = i + 1;
    }
    q
}

/// `x * 10^n`, where it fits.
fn mul_pow10(x: Uint256, n: u8) -> (r: Uint256)
    requires
        x.value() * pow10(n as nat) <= max256(),
    ensures
        r.value() == x.value() * pow10(n as nat),
{
    let mut q = x;
    let mut i: u8 = 0;
    let ghost xv = x.value();
    assert(pow10(0) == 1);
    while i < n
        invariant
            i <= n,
            xv == x.value(),
            q.value() == xv * pow10(i as nat),
            xv * pow10(n as nat) <= max256(),
        decreases n - i,
    {
        proof {
            assert(pow10((i + 1) as nat) == pow10(i as nat) * 10);
            lemma_pow10_monotone((i + 1) as nat, n as nat);
            assert(xv * pow10((i + 1) as nat) <= xv * pow10(n as nat)) by (nonlinear_arith)
                requires
                    pow10((i + 1) as nat) <= pow10(n as nat),
            ;
            assert(xv * pow10((i + 1) as nat) == (xv * pow10(i as nat)) * 10) by (nonlinear_arith)
                requires
                    pow10((i + 1) as nat) == pow10(i as nat) * 10,
            ;
        }
        q = crate::uint256::mul(q, ten());
        i = i + 1;
    }
    q
}

/// `10 * acc + d`, or `None` when that exceeds `2^256 - 1`.
fn push_digit(acc: Uint256, d: u128) -> (r: Option<Uint256>)
    requires
        d < 10,
    ensures
        r is Some <==> 10 * acc.value() + d <= max256(),
        r is Some ==> r->Some_0.value() == 10 * acc.value() + d,
{
    match checked_mul(acc, ten()) {
        None => None,
        Some(m) => checked_add(m, Uint256::from_u128(d)),
    }
}

/// Relies on `String::push`: appends one character.
#[verifier::external_body]
pub(crate) fn push_char(out: &mut String, c: char)
    ensures
        final(out)@ == old(out)@.push(c),
{
    out.push(c)
}

fn digit_to_char(d: u128) -> (c: char)
    requires
        d < 10,
    ensures
        c == digit_char(d as nat),
{
    let b: u8 = d as u8 + 48;
    b as char
}

pub(crate) fn push_dec(out: &mut String, n: Uint256)
    ensures
        final(out)@ == old(out)@ + dec_digits(n.value()),
    decreases n.value(),
{
    let (q, m) = div_mod(n, ten());
    if !q.is_zero() {
        push_dec(out, q);
    }
    let c = digit_to_char(low_word(&m) as u128);
    push_char(out, c);
    proof {
        if n.value() >= 10 {
            assert(dec_digits(n.value()) == dec_digits(n.value() / 10).push(
                digit_char(n.value() % 10),
            ));
        }
    }
}

impl<const P: u8> UDecimal<P> {
    pub open spec fn value(self) -> nat {
        self.internal.value()
    }

    pub fn zero() -> (r: Self)
        ensures
            r.value() == 0,
    {
        UDecimal { internal: Uint256::zero() }
    }

    /// The sum; the caller keeps it in range.
    pub fn add(self, rhs: Self) -> (r: Self)
        requires
            self.value() + rhs.value() <= max256(),
        ensures
            r.value() == self.value() + rhs.value(),
    {
        UDecimal { internal: crate::uint256::add(self.internal, rhs.internal) }
    }

    /// The difference; the caller keeps it non-negative.
    pub fn sub(self, rhs: Self) -> (r: Self)
        requires
            rhs.value() <= self.value(),
        ensures
            r.value() == self.value() - rhs.value(),
    {
        UDecimal { internal: crate::uint256::sub(self.internal, rhs.internal) }
    }

    /// The product at the same precision, rounded down.
    pub fn mul(self, rhs: Self) -> (r: Self)
        requires
            self.value() * rhs.value() <= max256(),
        ensures
            r.value() == (self.value() * rhs.value()) / pow10(P as nat),
    {
        UDecimal { internal: div_pow10(crate::uint256::mul(self.internal, rhs.internal), P) }
    }

    /// The quotient at the same precision, rounded down.
    pub fn div(self, rhs: Self) -> (r: Self)
        requires
            rhs.value() > 0,
            self.value() * pow10(P as nat) <= max256(),
        ensures
            r.value() == (self.value() * pow10(P as nat)) / rhs.value(),
    {
        UDecimal { internal: div_mod(mul_pow10(self.internal, P), rhs.internal).0 }
    }

    pub fn add_assign(&mut self, rhs: Self)
        requires
            old(self).value() + rhs.value() <= max256(),
        ensures
            final(self).value() == old(self).value() + rhs.value(),
    {
        *self = self.add(rhs);
    }

    pub fn sub_assign(&mut self, rhs: Self)
        requires
            rhs.value() <= old(self).value(),
        ensures
            final(self).value() == old(self).value() - rhs.value(),
    {
        *self = self.sub(rhs);
    }

    /// The sum, or the largest value when it does not fit.
    pub fn saturating_add(self, other: Self) -> (r: Self)
        ensures
            r.value() == if self.value() + other.value() <= max256() {
                self.value() + other.value()
            } else {
                max256()
            },
    {
        UDecimal { internal: crate::uint256::saturating_add(self.internal, other.internal) }
    }

    /// The difference, or zero when `other` is larger.
    pub fn saturating_sub(self, other: Self) -> (r: Self)
        ensures
            r.value() == if other.value() <= self.value() {
                (self.value() - other.value()) as nat
            } else {
                0
            },
    {
        UDecimal { internal: crate::uint256::saturating_sub(self.internal, other.internal) }
    }

    /// The same number at precision `N`: extra digits are dropped, missing
    /// ones are zero.
    pub fn change_precision<const N: u8>(self) -> (r: UDecimal<N>)
        requires
            N > P ==> self.value() * pow10((N - P) as nat) <= max256(),
        ensures
            N > P ==> r.value() == self.value() * pow10((N - P) as nat),
            N < P ==> r.value() == self.value() / pow10((P - N) as nat),
            N == P ==> r.value() == self.value(),
    {
        let internal = if N > P {
            mul_pow10(self.internal, N - P)
        } else if N < P {
            div_pow10(self.internal, P - N)
        } else {
            self.internal
        };
        UDecimal { internal }
    }

    /// The same internal integer read at precision `N`: the number is scaled
    /// by `10^(P - N)`.
    pub fn shift<const N: u8>(self) -> (r: UDecimal<N>)
        ensures
            r.value() == self.value(),
    {
        UDecimal { internal: self.internal }
    }

    /// The integer part.
    pub fn as_u256(&self) -> (r: Uint256)
        ensures
            r.value() == self.value() / pow10(P as nat),
    {
        div_pow10(self.internal, P)
    }

    /// Writes the value in decimal: the integer part, then a point and the
    /// fractional digits without trailing zeros, when any are left.
    pub fn to_string(&self) -> (r: String)
        ensures
            r@ == render_spec(self.value(), P as nat),
    {
        let ghost v = self.value();
        let p: usize = P as usize;
        let mut q = self.internal;
        let mut rev: Vec<char> = Vec::new();
        let mut i: usize = 0;
        assert(pow10(0) == 1);
        while i < p
            invariant
                p == P,
                v == self.internal.value(),
                i <= p,
                q.value() == v / pow10(i as nat),
                rev@.len() == i,
                forall|k: int| 0 <= k < i ==> rev@[k] == digit_char(digit_at(v, k as nat)),
            decreases p - i,
        {
            let (next, m) = div_mod(q, ten());
            let c = digit_to_char(low_word(&m) as u128);
            rev.push(c);
            proof {
                assert(pow10((i + 1) as nat) == pow10(i as nat) * 10);
                lemma_pow10_positive(i as nat);
                lemma_div_denominator(v as int, pow10(i as nat) as int, 10);
            }
            q = next;
            i = i + 1;
        }
        let ghost frac = fraction_digits(v, P as nat);
        assert(forall|j: int| 0 <= j < p ==> frac[j] == rev@[p - 1 - j]);
        let mut t: usize = 0;
        while t < p && rev[t] == '0'
            invariant
                t <= p,
                rev@.len() == p,
                forall|k: int| 0 <= k < t ==> rev@[k] == '0',
            decreases p - t,
        {
            t = t + 1;
        }
        let m: usize = p - t;
        proof {
            lemma_strip_trailing_zeros(frac, m as int);
        }
        let mut out = String::new();
        push_dec(&mut out, q);
        if m > 0 {
            push_char(&mut out, '.');
            let mut j: usize = 0;
            while j < m
                invariant
                    m == p - t,
                    t <= p,
                    rev@.len() == p,
                    frac.len() == p,
                    forall|j: int| 0 <= j < p ==> frac[j] == rev@[p - 1 - j],
                    j <= m,
                    out@ == dec_digits(q.value()) + seq!['.'] + frac.take(j as int),
                decreases m - j,
            {
                let c = rev[p - 1 - j];
                push_char(&mut out, c);
                assert(frac.take(j + 1) == frac.take(j as int).push(c));
                j = j + 1;
            }
        }
        out
    }

    /// Parses a decimal string: an integer part and an optional point with
    /// fractional digits. Digits past the precision are dropped.
    pub fn from_str(s: &str) -> (r: Result<Self, ParseStrError>)
        ensures
            r is Ok <==> parse_spec(s@, P as nat) is Some,
            r is Ok ==> r->Ok_0.value() == parse_spec(s@, P as nat)->Some_0,
    {
        let n = s.unicode_len();
        let mut found = false;
        let mut i: usize = 0;
        while i < n
            invariant
                n == s@.len(),
                i <= n,
                found ==> has_digit(s@),
                !found ==> forall|j: int| 0 <= j < i ==> !is_digit(s@[j]),
            decreases n - i,
        {
            let c = s.get_char(i);
            if '0' <= c && c <= '9' {
                found = true;
            }
            i = i + 1;
        }
        if !found {
            return Err(ParseStrError::InvalidInput);
        }
        let mut k: usize = 0;
        while k < n && s.get_char(k) != '.'
            invariant
                n == s@.len(),
                k <= n,
                forall|j: int| 0 <= j < k ==> s@[j] != '.',
            decreases n - k,
        {
            k = k + 1;
        }
        proof {
            lemma_point_index(s@, k as int);
        }
        let ghost d = scaled_digits(s@, P as nat);
        let ghost int_part = s@.take(k as int);
        let ghost frac = fraction_part(s@);
        assert(d == int_part + fit(frac, P as nat));
        assert(fit(frac, P as nat).len() == P as nat);
        assert(d.len() == k + P);
        let mut acc = Uint256::zero();
        let mut i: usize = 0;
        while i < k
            invariant
                n == s@.len(),
                k <= n,
                i <= k,
                d == int_part + fit(frac, P as nat),
                d == scaled_digits(s@, P as nat),
                int_part == s@.take(k as int),
                d.len() == k + P,
                all_digits(d.take(i as int)),
                acc.value() == digits_value(d.take(i as int)),
            decreases k - i,
        {
            let c = s.get_char(i);
            assert(d[i as int] == c);
            assert(d.take(i + 1) == d.take(i as int).push(c));
            assert(d.take(i + 1).drop_last() == d.take(i as int));
            if !('0' <= c && c <= '9') {
                assert(!is_digit(d[i as int]));
                assert(!all_digits(d));
                assert(parse_spec(s@, P as nat) is None);
                return Err(ParseStrError::InvalidInput);
            }
            let dv = (c as u32 - '0' as u32) as u128;
            assert(digit_value(c) == dv);
            match push_digit(acc, dv) {
                None => {
                    proof {
                        assert(d == d.take(i + 1) + d.skip(i + 1));
                        lemma_digits_value_grows(d.take(i + 1), d.skip(i + 1));
                        assert(digits_value(d.take(i + 1)) == 10 * acc.value() + dv);
                        assert(digits_value(d) > max256());
                        assert(parse_spec(s@, P as nat) is None);
                    }
                    return Err(ParseStrError::InvalidInput);
                },
                Some(x) => {
                    acc = x;
                },
            }
            i = i + 1;
        }
        let p: usize = P as usize;
        let flen: usize = if k < n {
            n - k - 1
        } else {
            0
        };
        assert(frac.len() == flen);
        let mut j: usize = 0;
        while j < p
            invariant
                n == s@.len(),
                k <= n,
                p == P,
                flen == frac.len(),
                frac == fraction_part(s@),
                point_index(s@) == k,
                d == int_part + fit(frac, P as nat),
                d == scaled_digits(s@, P as nat),
                int_part.len() == k,
                d.len() == k + P,
                j <= p,
                all_digits(d.take(k + j)),
                acc.value() == digits_value(d.take(k + j)),
            decreases p - j,
        {
            let c = if j < flen {
                s.get_char(k + 1 + j)
            } else {
                '0'
            };
            assert(d[k + j] == c);
            assert(d.take(k + j + 1) == d.take(k + j).push(c));
            assert(d.take(k + j + 1).drop_last() == d.take(k + j));
            if !('0' <= c && c <= '9') {
                assert(!is_digit(d[k + j]));
                assert(!all_digits(d));
                assert(parse_spec(s@, P as nat) is None);
                return Err(ParseStrError::InvalidInput);
            }
            let dv = (c as u32 - '0' as u32) as u128;
            assert(digit_value(c) == dv);
            match push_digit(acc, dv) {
                None => {
                    proof {
                        assert(d == d.take(k + j + 1) + d.skip(k + j + 1));
                        lemma_digits_value_grows(d.take(k + j + 1), d.skip(k + j + 1));
                        assert(digits_value(d.take(k + j + 1)) == 10 * acc.value() + dv);
                        assert(digits_value(d) > max256());
                        assert(parse_spec(s@, P as nat) is None);
                    }
                    return Err(ParseStrError::InvalidInput);
                },
                Some(x) => {
                    acc = x;
                },
            }
            j = j + 1;
        }
        assert(d.take(k + p) == d);
        Ok(UDecimal { internal: acc })
    }
}

} // verus!
