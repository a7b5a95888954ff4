use crate::decimal::push_char;
use crate::selection::DeploymentId;
use vstd::arithmetic::div_mod::lemma_fundamental_div_mod_converse;
use vstd::prelude::*;

verus! {

/// The number that bytes spell, most significant first.
pub open spec fn bytes_value(b: Seq<u8>) -> nat
    decreases b.len(),
{
    if b.len() == 0 {
        0
    } else {
        bytes_value(b.drop_last()) * 256 + b.last() as nat
    }
}

/// The Bitcoin base-58 alphabet: digits and letters without '0', 'I', 'O'
/// and 'l'.
pub open spec fn base58_char(d: nat) -> char {
    if d < 9 {
        (d + 49) as char
    } else if d < 17 {
        (d - 9 + 65) as char
    } else if d < 22 {
        (d - 17 + 74) as char
    } else if d < 33 {
        (d - 22 + 80) as char
    } else if d < 44 {
        (d - 33 + 97) as char
    } else {
        (d - 44 + 109) as char
    }
}

/// `n` in base 58, most significant digit first, without leading zeros.
pub open spec fn base58(n: nat) -> Seq<char>
    decreases n,
{
    if n < 58 {
        seq![base58_char(n)]
    } else {
        base58(n / 58).push(base58_char(n % 58))
    }
}

/// The IPFS hash of a deployment: its 32 bytes as a SHA-256 multihash
/// (prefixed by 0x12 0x20), in base 58. The prefix is not zero, so no
/// leading '1' stands for a zero byte.
pub open spec fn ipfs_hash_of(bytes: Seq<u8>) -> Seq<char> {
    base58(bytes_value(seq![0x12u8, 0x20u8] + bytes))
}

fn base58_char_exec(d: u8) -> (c: char)
    requires
        d < 58,
    ensures
        c == base58_char(d as nat),
{
    if d < 9 {
        (d + 49) as char
    } else if d < 17 {
        (d - 9 + 65) as char
    } else if d < 22 {
        (d - 17 + 74) as char
    } else if d < 33 {
        (d - 22 + 80) as char
    } else if d < 44 {
        (d - 33 + 97) as char
    } else {
        (d - 44 + 109) as char
    }
}

proof fn lemma_zero_bytes(b: Seq<u8>)
    ensures
        bytes_value(b) == 0 <==> forall|i: int| 0 <= i < b.len() ==> b[i] == 0,
    decreases b.len(),
{
    if b.len() > 0 {
        let c = b.drop_last();
        lemma_zero_bytes(c);
        if bytes_value(b) == 0 {
            assert forall|i: int| 0 <= i < b.len() implies b[i] == 0 by {
                if i < c.len() {
                    assert(c[i] == b[i]);
                }
            }
        }
        if forall|i: int| 0 <= i < b.len() ==> b[i] == 0 {
            assert forall|i: int| 0 <= i < c.len() implies c[i] == 0 by {
                assert(c[i] == b[i]);
            }
            assert(b.last() == b[b.len() - 1]);
        }
    }
}

fn all_zero(b: &Vec<u8>) -> (r: bool)
    ensures
        r == (bytes_value(b@) == 0),
{
    let mut i: usize = 0;
    while i < b.len()
        invariant
            i <= b@.len(),
            forall|j: int| 0 <= j < i ==> b@[j] == 0,
        decreases b@.len() - i,
    {
        if b[i] != 0 {
            proof {
                lemma_zero_bytes(b@);
            }
            return false;
        }
        i = i + 1;
    }
    proof {
        lemma_zero_bytes(b@);
    }
    true
}

/// Long division of a big-endian number by 58.
fn divmod58(b: &Vec<u8>) -> (r: (Vec<u8>, u8))
    ensures
        bytes_value(r.0@) == bytes_value(b@) / 58,
        r.1 as nat == bytes_value(b@) % 58,
{
    let mut q: Vec<u8> = Vec::new();
    let mut rem: u32 = 0;
    let mut i: usize = 0;
    assert(b@.take(0) == Seq::<u8>::empty());
    while i < b.len()
        invariant
            i <= b@.len(),
            rem < 58,
            bytes_value(b@.take(i as int)) == bytes_value(q@) * 58 + rem,
        decreases b@.len() - i,
    {
        let cur: u32 = rem * 256 + b[i] as u32;
        let digit: u32 = cur / 58;
        assert(digit < 256) by (nonlinear_arith)
            requires
                digit == cur / 58,
                cur == rem * 256 + b[i as int] as u32,
                rem < 58,
                b[i as int] < 256,
        ;
        let ghost qv = bytes_value(q@);
        let ghost old_q = q@;
        q.push(digit as u8);
        assert(q@.drop_last() == old_q);
        assert(b@.take(i + 1).drop_last() == b@.take(i as int));
        let new_rem = cur % 58;
        assert(bytes_value(b@.take(i + 1)) == bytes_value(q@) * 58 + new_rem) by (nonlinear_arith)
            requires
                bytes_value(b@.take(i + 1)) == bytes_value(b@.take(i as int)) * 256 + b[i as int],
                bytes_value(b@.take(i as int)) == qv * 58 + rem,
                bytes_value(q@) == qv * 256 + digit,
                cur == rem * 256 + b[i as int],
                digit == cur / 58,
                new_rem == cur % 58,
        ;
        rem = new_rem;
        i = i + 1;
    }
    assert(b@.take(i as int) == b@);
    proof {
        lemma_fundamental_div_mod_converse(
            bytes_value(b@) as int,
            58,
            bytes_value(q@) as int,
            rem as int,
        );
    }
    (q, rem as u8)
}

/// The IPFS hash of a deployment, as it is displayed.
pub fn ipfs_hash(d: &DeploymentId) -> (r: String)
    ensures
        r@ == ipfs_hash_of(d.bytes@),
{
    let mut num: Vec<u8> = Vec::new();
    num.push(0x12u8);
    num.push(0x20u8);
    let mut i: usize = 0;
    while i < 32
        invariant
            i <= 32,
            d.bytes@.len() == 32,
            num@ == seq![0x12u8, 0x20u8] + d.bytes@.take(i as int),
        decreases 32 - i,
    {
        num.push(d.bytes[i]);
        assert(d.bytes@.take(i + 1) == d.bytes@.take(i as int).push(d.bytes@[i as int]));
        i = i + 1;
    }
    assert(d.bytes@.take(32) == d.bytes@);
    let ghost total = bytes_value(num@);
    // Digits are found least significant first.
    let mut digits: Vec<char> = Vec::new();
    let mut cur = num;
    loop
        invariant_except_break
            base58(total) == base58(bytes_value(cur@)) + digits@.reverse(),
        ensures
            base58(total) == digits@.reverse(),
        decreases bytes_value(cur@),
    {
        let (q, r) = divmod58(&cur);
        let ghost n = bytes_value(cur@);
        let ghost old_digits = digits@;
        let c = base58_char_exec(r);
        digits.push(c);
        assert(digits@.reverse() == seq![c] + old_digits.reverse());
        if all_zero(&q) {
            assert(base58(n) == seq![c]);
            assert(base58(total) == digits@.reverse());
            break;
        }
        assert(base58(n) == base58(n / 58).push(c));
        assert(base58(total) == base58(bytes_value(q@)) + digits@.reverse());
        cur = q;
    }
    assert(total == bytes_value(seq![0x12u8, 0x20u8] + d.bytes@));
    let mut out = String::new();
    let ghost rev = digits@.reverse();
    let mut k: usize = digits.len();
    while k > 0
        invariant
            k <= digits@.len(),
            rev == digits@.reverse(),
            out@ == rev.take((digits@.len() - k) as int),
        decreases k,
    {
        k = k - 1;
        let c = digits[k];
        assert(rev[(digits@.len() - k - 1) as int] == c);
        assert(rev.take((digits@.len() - k) as int) == rev.take((digits@.len() - k - 1) as int).push(
            c,
        ));
        push_char(&mut out, c);
    }
    assert(rev.take(digits@.len() as int) == rev);
    out
}

} // verus!
