use crate::selection::brace_depth;
use vstd::prelude::*;

verus! {

/// One pricing rule: queries that select `field` at the top level cost
/// `price_wei`.
#[derive(Clone, Debug)]
pub struct CostRule {
    pub field: Vec<u8>,
    pub price_wei: u128,
}

/// An indexer's pricing: the first rule whose field the query selects at the
/// top level gives the price; else the default, if any. Prices are in GRT wei
/// (units of `10^-18` GRT).
#[derive(Clone, Debug)]
pub struct CostModel {
    pub rules: Vec<CostRule>,
    pub default_wei: Option<u128>,
}

pub open spec fn is_ident_byte(b: u8) -> bool {
    (48 <= b <= 57) || (65 <= b <= 90) || (97 <= b <= 122) || b == 95
}

/// Nesting depth of parentheses after the bytes of `s`.
pub open spec fn paren_depth(s: Seq<u8>) -> int
    decreases s.len(),
{
    if s.len() == 0 {
        0
    } else {
        paren_depth(s.drop_last()) + if s.last() == 40u8 {
            1int
        } else if s.last() == 41u8 {
            -1int
        } else {
            0int
        }
    }
}

/// `name` stands at position `i` of `q` as a whole word, inside the outer
/// selection set and outside any argument list.
pub open spec fn field_at(q: Seq<u8>, name: Seq<u8>, i: int) -> bool {
    &&& 0 <= i
    &&& i + name.len() <= q.len()
    &&& q.subrange(i, i + name.len()) == name
    &&& (i == 0 || !is_ident_byte(q[i - 1]))
    &&& (i + name.len() == q.len() || !is_ident_byte(q[i + name.len()]))
    &&& brace_depth(q.take(i)) == 1
    &&& paren_depth(q.take(i)) == 0
}

/// Whether the query selects `name` at the top level.
pub open spec fn selects_field(q: Seq<u8>, name: Seq<u8>) -> bool {
    name.len() > 0 && exists|i: int| field_at(q, name, i)
}

pub open spec fn rule_price(rules: Seq<CostRule>, q: Seq<u8>) -> Option<u128>
    decreases rules.len(),
{
    if rules.len() == 0 {
        None
    } else if selects_field(q, rules[0].field@) {
        Some(rules[0].price_wei)
    } else {
        rule_price(rules.drop_first(), q)
    }
}

/// The price of query `q` under `m`, or none when nothing prices it.
pub open spec fn price_of(m: CostModel, q: Seq<u8>) -> Option<u128> {
    match rule_price(m.rules@, q) {
        Some(p) => Some(p),
        None => m.default_wei,
    }
}

fn matches_at(q: &[u8], name: &Vec<u8>, i: usize) -> (r: bool)
    requires
        i + name@.len() <= q@.len(),
    ensures
        r == (q@.subrange(i as int, i + name@.len()) == name@),
{
    let n = q.len();
    let mut j: usize = 0;
    while j < name.len()
        invariant
            n == q@.len(),
            i + name@.len() <= q@.len(),
            j <= name@.len(),
            forall|k: int| 0 <= k < j ==> q@[i + k] == name@[k],
        decreases name@.len() - j,
    {
        if q[i + j] != name[j] {
            assert(q@.subrange(i as int, i + name@.len())[j as int] != name@[j as int]);
            return false;
        }
        j = j + 1;
    }
    assert(q@.subrange(i as int, i + name@.len()) == name@);
    true
}

fn is_ident_exec(b: u8) -> (r: bool)
    ensures
        r == is_ident_byte(b),
{
    (48 <= b && b <= 57) || (65 <= b && b <= 90) || (97 <= b && b <= 122) || b == 95
}

/// Whether the query selects `name` at the top level.
pub fn selects(q: &[u8], name: &Vec<u8>) -> (r: bool)
    ensures
        r == selects_field(q@, name@),
{
    if name.len() == 0 {
        return false;
    }
    let n = q.len();
    let mut braces: i128 = 0;
    let mut parens: i128 = 0;
    let mut i: usize = 0;
    assert(q@.take(0) == Seq::<u8>::empty());
    while i < n
        invariant
            n == q@.len(),
            name@.len() > 0,
            i <= n,
            braces == brace_depth(q@.take(i as int)),
            parens == paren_depth(q@.take(i as int)),
            -(i as int) <= braces <= i,
            -(i as int) <= parens <= i,
            forall|k: int| 0 <= k < i ==> !field_at(q@, name@, k),
        decreases n - i,
    {
        if braces == 1 && parens == 0 && name.len() <= n - i {
            if matches_at(q, name, i) && (i == 0 || !is_ident_exec(q[i - 1])) && (i
                + name.len() == n || !is_ident_exec(q[i + name.len()])) {
                assert(field_at(q@, name@, i as int));
                return true;
            }
        }
        let b = q[i];
        assert(q@.take(i + 1).drop_last() == q@.take(i as int));
        assert(q@.take(i + 1).last() == b);
        if b == 123u8 {
            braces = braces + 1;
        } else if b == 125u8 {
            braces = braces - 1;
        }
        if b == 40u8 {
            parens = parens + 1;
        } else if b == 41u8 {
            parens = parens - 1;
        }
        i = i + 1;
    }
    proof {
        assert forall|k: int| !field_at(q@, name@, k) by {
            if 0 <= k < n {
            } else if k >= n {
                assert(!(k + name@.len() <= q@.len()));
            }
        }
    }
    false
}

/// The price of a query under an indexer's cost model, or `None` when no rule
/// and no default price it.
pub fn price(m: &CostModel, q: &[u8]) -> (r: Option<u128>)
    ensures
        r == price_of(*m, q@),
{
    let mut i: usize = 0;
    assert(m.rules@.skip(0) == m.rules@);
    while i < m.rules.len()
        invariant
            i <= m.rules@.len(),
            rule_price(m.rules@, q@) == rule_price(m.rules@.skip(i as int), q@),
        decreases m.rules@.len() - i,
    {
        assert(m.rules@.skip(i as int).drop_first() == m.rules@.skip(i + 1));
        assert(m.rules@.skip(i as int)[0] == m.rules@[i as int]);
        if selects(q, &m.rules[i].field) {
            return Some(m.rules[i].price_wei);
        }
        i = i + 1;
    }
    m.default_wei
}

} // verus!
