use crate::cost_model::is_ident_byte;
use crate::selection::BlockRequirements;
use vstd::prelude::*;

verus! {

pub open spec fn is_digit_byte(b: u8) -> bool {
    48 <= b <= 57
}

/// The first index from `j` that is not a space.
pub open spec fn skip_spaces(q: Seq<u8>, j: int) -> int
    decreases q.len() - j,
{
    if 0 <= j < q.len() && q[j] == 32u8 {
        skip_spaces(q, j + 1)
    } else {
        j
    }
}

/// The first index from `j` that is not a digit.
pub open spec fn skip_digits(q: Seq<u8>, j: int) -> int
    decreases q.len() - j,
{
    if 0 <= j < q.len() && is_digit_byte(q[j]) {
        skip_digits(q, j + 1)
    } else {
        j
    }
}

/// The number that the digits `q[j..k]` spell.
pub open spec fn number_of(q: Seq<u8>, j: int, k: int) -> nat
    decreases k - j,
{
    if k <= j {
        0
    } else {
        10 * number_of(q, j, k - 1) + (q[k - 1] - 48) as nat
    }
}

/// The word `number:` stands at `i`, as in `block: { number: 100 }`.
pub open spec fn number_key_at(q: Seq<u8>, i: int) -> bool {
    &&& 0 <= i
    &&& i + 7 <= q.len()
    &&& q.subrange(i, i + 7) == seq![110u8, 117u8, 109u8, 98u8, 101u8, 114u8, 58u8]
    &&& (i == 0 || !is_ident_byte(q[i - 1]))
}

/// The block number that a constraint at `i` names, if one stands there and
/// fits in 64 bits.
pub open spec fn constraint_at(q: Seq<u8>, i: int) -> Option<u64> {
    let j = skip_spaces(q, i + 7);
    let k = skip_digits(q, j);
    if number_key_at(q, i) && j < k && number_of(q, j, k) <= u64::MAX {
        Some(number_of(q, j, k) as u64)
    } else {
        None
    }
}

pub open spec fn widen(r: Option<(u64, u64)>, n: u64) -> Option<(u64, u64)> {
    match r {
        None => Some((n, n)),
        Some((lo, hi)) => Some((if n < lo { n } else { lo }, if n > hi { n } else { hi })),
    }
}

/// The range spanned by the block numbers named before position `n`.
pub open spec fn range_before(q: Seq<u8>, n: int) -> Option<(u64, u64)>
    decreases n,
{
    if n <= 0 {
        None
    } else {
        match constraint_at(q, n - 1) {
            Some(b) => widen(range_before(q, n - 1), b),
            None => range_before(q, n - 1),
        }
    }
}

/// What a query needs of an indexer's blocks: the range of the block
/// numbers it names, and the latest block when it names none.
pub open spec fn requirements_of(q: Seq<u8>) -> BlockRequirements {
    let r = range_before(q, q.len() as int);
    BlockRequirements { range: r, has_latest: r is None }
}

fn constraint(q: &[u8], i: usize) -> (r: Option<u64>)
    requires
        i < q@.len(),
    ensures
        r == constraint_at(q@, i as int),
{
    let n = q.len();
    if n - i < 7 {
        return None;
    }
    let key: [u8; 7] = [110u8, 117u8, 109u8, 98u8, 101u8, 114u8, 58u8];
    let mut m: usize = 0;
    while m < 7
        invariant
            i + 7 <= n,
            n == q@.len(),
            m <= 7,
            key@ == seq![110u8, 117u8, 109u8, 98u8, 101u8, 114u8, 58u8],
            forall|t: int| 0 <= t < m ==> q@[i + t] == key@[t],
        decreases 7 - m,
    {
        if q[i + m] != key[m] {
            assert(q@.subrange(i as int, i + 7)[m as int] != key@[m as int]);
            return None;
        }
        m = m + 1;
    }
    assert(q@.subrange(i as int, i + 7) == key@);
    if i > 0 && (48 <= q[i - 1] && q[i - 1] <= 57 || 65 <= q[i - 1] && q[i - 1] <= 90 || 97 <= q[i
        - 1] && q[i - 1] <= 122 || q[i - 1] == 95) {
        return None;
    }
    let mut j: usize = i + 7;
    while j < n && q[j] == 32u8
        invariant
            i + 7 <= j <= n,
            n == q@.len(),
            skip_spaces(q@, i + 7) == skip_spaces(q@, j as int),
        decreases n - j,
    {
        j = j + 1;
    }
    let mut k: usize = j;
    let mut value: u64 = 0;
    let mut fits = true;
    while k < n && 48 <= q[k] && q[k] <= 57
        invariant
            j <= k <= n,
            n == q@.len(),
            skip_digits(q@, j as int) == skip_digits(q@, k as int),
            fits ==> value == number_of(q@, j as int, k as int),
            !fits ==> number_of(q@, j as int, k as int) > u64::MAX,
        decreases n - k,
    {
        let d = (q[k] - 48) as u64;
        if fits && value <= (u64::MAX - d) / 10 {
            assert(10 * value + d <= u64::MAX) by (nonlinear_arith)
                requires
                    value <= (u64::MAX - d) / 10,
                    d <= 9,
            ;
            value = 10 * value + d;
        } else {
            proof {
                if fits {
                    assert(10 * value + d > u64::MAX) by (nonlinear_arith)
                        requires
                            value > (u64::MAX - d) / 10,
                            d <= 9,
                    ;
                }
            }
            fits = false;
        }
        k = k + 1;
    }
    if j < k && fits {
        Some(value)
    } else {
        None
    }
}

/// The block requirements of a query text.
pub fn block_requirements(query: &[u8]) -> (r: BlockRequirements)
    ensures
        r == requirements_of(query@),
{
    let n = query.len();
    let mut range: Option<(u64, u64)> = None;
    let mut i: usize = 0;
    while i < n
        invariant
            i <= n,
            n == query@.len(),
            range == range_before(query@, i as int),
        decreases n - i,
    {
        match constraint(query, i) {
            Some(b) => {
                range = match range {
                    None => Some((b, b)),
                    Some((lo, hi)) => Some(
                        (if b < lo { b } else { lo }, if b > hi { b } else { hi }),
                    ),
                };
            },
            None => {},
        }
        i = i + 1;
    }
    BlockRequirements { range, has_latest: range.is_none() }
}

} // verus!
