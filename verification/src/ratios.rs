//! Enumeration of the best (lowest-lcm) coprime frequency ratios for a given
//! integer base, ascending by lcm with ties broken by ascending numerator.

use crate::arith::{
    gcd, gcd_lcm, lcm, lemma_coprime_pair_unique, lemma_gcd_consecutive, lemma_gcd_one,
    lemma_lcm_coprime, lemma_lcm_le_product,
};
use vstd::prelude::*;

verus! {

/// A well-formed produced ratio `(numerator, denominator, lcm)`: the pair is
/// coprime, the numerator lies in the range the base allows, and the third
/// component is the pair's least common multiple.
pub open spec fn ratio_valid(base: int, t: (u32, u32, u32)) -> bool {
    &&& 1 <= t.1 <= t.0
    &&& t.0 <= t.1 * base
    &&& gcd(t.0 as nat, t.1 as nat) == 1
    &&& t.2 == lcm(t.0 as nat, t.1 as nat)
}

/// `t` ranks strictly before a ratio with lcm `l` and numerator `n`:
/// the ranking key is the lcm, ties broken by the numerator.
pub open spec fn below_key(t: (u32, u32, u32), l: u32, n: u32) -> bool {
    t.2 < l || (t.2 == l && t.0 < n)
}

/// `a` ranks strictly before `b`.
pub open spec fn key_lt(a: (u32, u32, u32), b: (u32, u32, u32)) -> bool {
    below_key(a, b.2, b.0)
}

/// Strictly ascending by lcm, ties broken by ascending numerator.
pub open spec fn sorted_by_key(s: Seq<(u32, u32, u32)>) -> bool {
    forall|i: int, j: int| 0 <= i < j < s.len() ==> key_lt(#[trigger] s[i], #[trigger] s[j])
}

/// The inputs are small enough that no intermediate u32 product of the
/// enumeration can overflow.
pub open spec fn gen_fits(base: int, count: int) -> bool {
    (count + 2) * (count + 2) * base <= u32::MAX
}

/// A pair the enumeration draws from: coprime, with the numerator in the
/// range the base admits for its denominator.
pub open spec fn candidate(base: int, n: nat, d: nat) -> bool {
    &&& 1 <= d
    &&& gcd(n, d) == 1
    &&& if d == 1 {
        1 <= n <= base
    } else {
        d < n < d * base
    }
}

/// The pair `(n, d)` appears in the sequence.
pub open spec fn holds_pair(s: Seq<(u32, u32, u32)>, n: nat, d: nat) -> bool {
    exists|i: int| 0 <= i < s.len() && (#[trigger] s[i]).0 as nat == n && s[i].1 as nat == d
}

/// The pair `(n, d)` ranks strictly before the ratio `t`.
pub open spec fn outranked_by(n: nat, d: nat, t: (u32, u32, u32)) -> bool {
    lcm(n, d) < t.2 as nat || (lcm(n, d) == t.2 as nat && n < t.0 as nat)
}

// A family of candidates with strictly ascending keys: the unison seed, the
// octave-like seed 2/1, and the superparticular ratios (j + 1)/j.
spec fn fam_n(j: nat) -> nat {
    if j == 0 {
        1
    } else {
        j + 1
    }
}

spec fn fam_d(j: nat) -> nat {
    if j == 0 {
        1
    } else {
        j
    }
}

proof fn lemma_fam_facts(j: nat)
    ensures
        gcd(fam_n(j), fam_d(j)) == 1,
        lcm(fam_n(j), fam_d(j)) == if j == 0 {
            1nat
        } else {
            j * (j + 1)
        },
{
    if j == 0 {
        lemma_gcd_one(1);
        lemma_lcm_coprime(1, 1);
        assert(lcm(fam_n(j), fam_d(j)) == 1nat);
    } else if j == 1 {
        lemma_gcd_one(2);
        lemma_lcm_coprime(2, 1);
        assert(fam_n(j) == 2nat);
        assert(fam_d(j) == 1nat);
        assert(lcm(2nat, 1nat) == 2nat);
        assert(lcm(fam_n(j), fam_d(j)) == 2nat);
        assert(j * (j + 1) == 2nat) by (nonlinear_arith)
            requires
                j == 1nat,
        ;
    } else {
        lemma_gcd_consecutive(j);
        lemma_lcm_coprime((j + 1) as nat, j);
        assert(lcm(fam_n(j), fam_d(j)) == ((j + 1) as nat) * j);
        assert(((j + 1) as nat) * j == j * (j + 1)) by (nonlinear_arith);
    }
}

/// In a strictly sorted sequence that contains the family members `0 ..= j`,
/// the member `j` can only sit at position `j` or later.
proof fn lemma_family_pigeonhole(base: int, s: Seq<(u32, u32, u32)>, j: nat)
    requires
        sorted_by_key(s),
        forall|i: int| 0 <= i < s.len() ==> ratio_valid(base, #[trigger] s[i]),
        forall|k: nat| k <= j ==> #[trigger] holds_pair(s, fam_n(k), fam_d(k)),
    ensures
        exists|i: int|
            j <= i < s.len() && (#[trigger] s[i]).0 as nat == fam_n(j) && s[i].1 as nat == fam_d(
                j,
            ),
    decreases j,
{
    assert(holds_pair(s, fam_n(j), fam_d(j)));
    let i = choose|i: int|
        0 <= i < s.len() && (#[trigger] s[i]).0 as nat == fam_n(j) && s[i].1 as nat == fam_d(j);
    lemma_fam_facts(j);
    assert(s[i].2 as nat == lcm(fam_n(j), fam_d(j)));
    if j > 0 {
        let jp = (j - 1) as nat;
        lemma_family_pigeonhole(base, s, jp);
        let ip = choose|ip: int|
            jp <= ip < s.len() && (#[trigger] s[ip]).0 as nat == fam_n(jp) && s[ip].1 as nat
                == fam_d(jp);
        lemma_fam_facts(jp);
        assert(s[ip].2 as nat == lcm(fam_n(jp), fam_d(jp)));
        if j >= 2 {
            assert(jp * (jp + 1) < j * (j + 1)) by (nonlinear_arith)
                requires
                    jp == j - 1,
                    j >= 2,
            ;
        }
        assert(s[ip].2 < s[i].2);
        if i < ip {
            assert(key_lt(s[i], s[ip]));
            assert(false);
        }
        if i == ip {
            assert(false);
        }
        assert(i >= j);
    }
}

proof fn lemma_gen_bounds(base: int, count: int, den: int)
    requires
        2 <= base,
        1 <= count,
        2 <= den <= count + 1,
        gen_fits(base, count),
    ensures
        den * (den + 1) <= u32::MAX,
        den * base <= u32::MAX,
        (den * base) * den <= u32::MAX,
        den + 2 <= den * base,
        forall|num: int| den < num < den * base ==> #[trigger] (num * den) <= u32::MAX,
{
    assert forall|num: int| den < num < den * base implies #[trigger] (num * den)
        <= (den * base) * den by {
        assert(num * den <= (den * base) * den) by (nonlinear_arith)
            requires
                2 <= den,
                den < num < den * base,
        ;
    }
    assert(den * (den + 1) <= (count + 2) * (count + 2)) by (nonlinear_arith)
        requires
            2 <= den <= count + 1,
    ;
    assert((count + 2) * (count + 2) <= (count + 2) * (count + 2) * base) by (nonlinear_arith)
        requires
            1 <= count,
            2 <= base,
    ;
    assert(den * base <= (count + 2) * (count + 2) * base) by (nonlinear_arith)
        requires
            2 <= den <= count + 1,
            1 <= count,
            2 <= base,
    ;
    assert((den * base) * den <= (count + 2) * (count + 2) * base) by (nonlinear_arith)
        requires
            2 <= den <= count + 1,
            1 <= count,
            2 <= base,
    ;
    assert(den + 2 <= den * base) by (nonlinear_arith)
        requires
            2 <= den,
            2 <= base,
    ;
}

proof fn lemma_count_small(base: int, count: int)
    requires
        2 <= base,
        1 <= count,
        gen_fits(base, count),
    ensures
        count + 2 <= u32::MAX,
{
    assert(count + 2 <= (count + 2) * (count + 2) * base) by (nonlinear_arith)
        requires
            1 <= count,
            2 <= base,
    ;
}

/// Once every denominator up to `count + 1` has been scanned, the kept list
/// is complete: the family shows its worst kept lcm is at most
/// `count * (count + 1)`, and any unscanned pair ranks above that.
proof fn lemma_exhausted_completeness(base: int, count: int, s: Seq<(u32, u32, u32)>)
    requires
        2 <= base,
        1 <= count,
        sorted_by_key(s),
        forall|i: int| 0 <= i < s.len() ==> ratio_valid(base, #[trigger] s[i]),
        s.len() == count,
        forall|n: nat, d: nat|
            #[trigger] candidate(base, n, d) && (d == 1 || d < count + 2) ==> holds_pair(s, n, d)
                || !outranked_by(n, d, s[count - 1]),
    ensures
        forall|n: nat, d: nat|
            #[trigger] candidate(base, n, d) && outranked_by(n, d, s[count - 1]) ==> holds_pair(
                s,
                n,
                d,
            ),
{
    let c = count - 1;
    assert forall|k: nat| k <= count as nat implies candidate(base, fam_n(k), fam_d(k)) by {
        lemma_fam_facts(k);
        if k >= 2 {
            assert(k + 1 < k * base) by (nonlinear_arith)
                requires
                    k >= 2,
                    base >= 2,
            ;
        }
    }
    if forall|k: nat| k <= count as nat ==> #[trigger] holds_pair(s, fam_n(k), fam_d(k)) {
        lemma_family_pigeonhole(base, s, count as nat);
        assert(false);
    }
    let k = choose|k: nat| k <= count as nat && !holds_pair(s, fam_n(k), fam_d(k));
    lemma_fam_facts(k);
    assert(candidate(base, fam_n(k), fam_d(k)));
    assert(!outranked_by(fam_n(k), fam_d(k), s[c]));
    if k == 0 {
        assert(1nat <= count * (count + 1)) by (nonlinear_arith)
            requires
                count >= 1,
        ;
    } else {
        assert(k * (k + 1) <= count * (count + 1)) by (nonlinear_arith)
            requires
                1 <= k <= count,
        ;
    }
    assert(s[c].2 as nat <= count * (count + 1));
    assert forall|n: nat, d: nat|
        #[trigger] candidate(base, n, d) && outranked_by(n, d, s[c]) implies holds_pair(
        s,
        n,
        d,
    ) by {
        if !(d == 1 || d < count + 2) {
            lemma_lcm_coprime(n, d);
            assert(n * d >= (d + 1) * d) by (nonlinear_arith)
                requires
                    n >= d + 1,
                    d >= 1,
            ;
            assert((d + 1) * d > count * (count + 1)) by (nonlinear_arith)
                requires
                    d >= count + 2,
                    count >= 1,
            ;
            assert(false);
        }
    }
}

/// The index at which a ratio with lcm `l` and numerator `n` belongs:
/// everything before it ranks strictly below `(l, n)`, nothing after does.
fn lower_bound(v: &Vec<(u32, u32, u32)>, l: u32, n: u32) -> (idx: usize)
    requires
        sorted_by_key(v@),
    ensures
        idx <= v@.len(),
        forall|i: int| 0 <= i < idx ==> below_key(#[trigger] v@[i], l, n),
        forall|i: int| idx <= i < v@.len() ==> !below_key(#[trigger] v@[i], l, n),
{
    let mut lo: usize = 0;
    let mut hi: usize = v.len();
    while lo < hi
        invariant
            lo <= hi <= v@.len(),
            sorted_by_key(v@),
            forall|i: int| 0 <= i < lo ==> below_key(#[trigger] v@[i], l, n),
            forall|i: int| hi <= i < v@.len() ==> !below_key(#[trigger] v@[i], l, n),
        decreases hi - lo,
    {
        let mid = lo + (hi - lo) / 2;
        let t = v[mid];
        if t.2 < l || (t.2 == l && t.0 < n) {
            assert forall|i: int| 0 <= i < mid + 1 implies below_key(#[trigger] v@[i], l, n) by {
                if i < mid {
                    assert(key_lt(v@[i], v@[mid as int]));
                }
            }
            lo = mid + 1;
        } else {
            assert forall|i: int| mid <= i < v@.len() implies !below_key(
                #[trigger] v@[i],
                l,
                n,
            ) by {
                if i > mid {
                    assert(key_lt(v@[mid as int], v@[i]));
                }
            }
            hi = mid;
        }
    }
    lo
}

/// The `count` best (lowest-lcm) coprime ratios `(numerator, denominator,
/// lcm)` for the given base, ascending by lcm, ties broken by ascending
/// numerator. Denominator 1 admits numerators `1..=base`; a denominator
/// `d >= 2` admits numerators strictly between `d` and `d * base`. For a
/// base of at least 2 there are always enough ratios, so exactly `count`
/// are returned.
pub fn generate_ratios(base: u32, count: u32) -> (r: Vec<(u32, u32, u32)>)
    requires
        base >= 2,
        gen_fits(base as int, count as int),
    ensures
        r@.len() == count as int,
        sorted_by_key(r@),
        forall|i: int| 0 <= i < r@.len() ==> ratio_valid(base as int, #[trigger] r@[i]),
        count >= 1 ==> r@[0] == (1u32, 1u32, 1u32),
        count >= 1 ==> forall|n: nat, d: nat|
            #[trigger] candidate(base as int, n, d) && outranked_by(n, d, r@[count as int - 1])
                ==> holds_pair(r@, n, d),
{
    let mut ratios: Vec<(u32, u32, u32)> = Vec::new();
    if count == 0 {
        return ratios;
    }
    proof {
        lemma_count_small(base as int, count as int);
    }
    let seeds: u32 = if base < count {
        base
    } else {
        count
    };
    let mut i: u32 = 1;
    while i <= seeds
        invariant
            1 <= i <= seeds + 1,
            1 <= seeds <= base,
            seeds <= count,
            count as int + 2 <= u32::MAX as int,
            ratios@.len() == i - 1,
            forall|k: int|
                0 <= k < ratios@.len() ==> {
                    &&& (#[trigger] ratios@[k]).0 == k + 1
                    &&& ratios@[k].1 == 1
                    &&& ratios@[k].2 == k + 1
                },
        decreases seeds + 1 - i,
    {
        ratios.push((i, 1, i));
        i = i + 1;
    }
    assert forall|k: int| 0 <= k < ratios@.len() implies ratio_valid(
        base as int,
        #[trigger] ratios@[k],
    ) by {
        lemma_gcd_one((k + 1) as nat);
        lemma_lcm_coprime((k + 1) as nat, 1);
    }
    assert(ratios@[0] == (1u32, 1u32, 1u32));
    assert forall|n: nat, d: nat|
        #[trigger] candidate(base as int, n, d) && d == 1 implies holds_pair(ratios@, n, d) || (
        ratios@.len() >= count as int && !outranked_by(
            n,
            d,
            ratios@[count as int - 1],
        )) by {
        lemma_lcm_coprime(n, 1);
        if n <= seeds as nat {
            let i = n as int - 1;
            assert(ratios@[i].0 as nat == n && ratios@[i].1 as nat == d);
            assert(holds_pair(ratios@, n, d));
        } else {
            assert(seeds == count);
            assert(ratios@[count as int - 1].0 == count && ratios@[count as int - 1].2 == count);
            assert(!outranked_by(n, d, ratios@[count as int - 1]));
        }
    }
    let den_limit: u32 = count + 2;
    let mut den: u32 = 2;
    loop
        invariant
            base >= 2,
            1 <= count,
            gen_fits(base as int, count as int),
            1 <= seeds <= base,
            seeds <= count,
            den_limit == count + 2,
            2 <= den <= den_limit,
            sorted_by_key(ratios@),
            forall|k: int|
                0 <= k < ratios@.len() ==> ratio_valid(base as int, #[trigger] ratios@[k]),
            forall|k: int| 0 <= k < ratios@.len() ==> (#[trigger] ratios@[k]).1 < den,
            ratios@.len() <= count as int,
            ratios@.len() >= count as int || ratios@.len() >= seeds + den - 2,
            ratios@.len() >= 1,
            ratios@[0] == (1u32, 1u32, 1u32),
            forall|n: nat, d: nat|
                #[trigger] candidate(base as int, n, d) && (d == 1 || d < den) ==> holds_pair(
                    ratios@,
                    n,
                    d,
                ) || (ratios@.len() >= count as int && !outranked_by(
                    n,
                    d,
                    ratios@[count as int - 1],
                )),
        ensures
            sorted_by_key(ratios@),
            forall|k: int|
                0 <= k < ratios@.len() ==> ratio_valid(base as int, #[trigger] ratios@[k]),
            ratios@.len() == count as int,
            ratios@[0] == (1u32, 1u32, 1u32),
            forall|n: nat, d: nat|
                #[trigger] candidate(base as int, n, d) && outranked_by(
                    n,
                    d,
                    ratios@[count as int - 1],
                ) ==> holds_pair(ratios@, n, d),
        decreases den_limit - den,
    {
        if den >= den_limit {
            proof {
                lemma_exhausted_completeness(base as int, count as int, ratios@);
            }
            break;
        }
        proof {
            lemma_gen_bounds(base as int, count as int, den as int);
        }
        if ratios.len() == count as usize {
            let last = ratios[ratios.len() - 1];
            if last.2 < den * (den + 1) {
                proof {
                    assert forall|n: nat, d: nat|
                        #[trigger] candidate(base as int, n, d) && outranked_by(
                            n,
                            d,
                            ratios@[count as int - 1],
                        ) implies holds_pair(ratios@, n, d) by {
                        if d >= den as nat {
                            lemma_lcm_coprime(n, d);
                            assert(lcm(n, d) == n * d);
                            assert(n * d >= (d + 1) * d) by (nonlinear_arith)
                                requires
                                    n >= d + 1,
                                    d >= 1,
                            ;
                            assert((d + 1) * d >= (den as nat + 1) * (den as nat)) by (nonlinear_arith)
                                requires
                                    d >= den as nat,
                                    den as nat >= 1,
                            ;
                            assert((den as nat + 1) * (den as nat) == (den as nat) * (den as nat
                                + 1)) by (nonlinear_arith);
                            assert(ratios@[count as int - 1] == last);
                            assert((last.2 as nat) < (den as nat) * (den as nat + 1));
                            assert(!outranked_by(n, d, ratios@[count as int - 1]));
                        }
                    }
                }
                break;
            }
        }
        let hi = den * base;
        let ghost len0 = ratios@.len();
        let mut num: u32 = den + 1;
        while num < hi
            invariant
                base >= 2,
                1 <= count,
                gen_fits(base as int, count as int),
                2 <= den <= count + 1,
                den + 1 <= num <= hi,
                hi == den * base,
                sorted_by_key(ratios@),
                forall|k: int|
                    0 <= k < ratios@.len() ==> ratio_valid(base as int, #[trigger] ratios@[k]),
                forall|k: int|
                    0 <= k < ratios@.len() ==> {
                        let e = #[trigger] ratios@[k];
                        e.1 < den || (e.1 == den && e.0 < num)
                    },
                ratios@.len() >= len0,
                num > den + 1 ==> ratios@.len() >= len0 + 1,
                ratios@.len() >= 1,
                ratios@[0] == (1u32, 1u32, 1u32),
                forall|n: nat, d: nat|
                    #[trigger] candidate(base as int, n, d) && (d == 1 || d < den as nat || (d
                        == den as nat && n < num as nat)) ==> holds_pair(ratios@, n, d) || (
                    ratios@.len() >= count as int && !outranked_by(
                        n,
                        d,
                        ratios@[count as int - 1],
                    )),
            decreases hi - num,
        {
            proof {
                lemma_gen_bounds(base as int, count as int, den as int);
                lemma_lcm_le_product(num as nat, den as nat);
                lemma_gcd_consecutive(den as nat);
                assert(num as int * den as int <= u32::MAX);
                assert(lcm(num as nat, den as nat) <= u32::MAX);
            }
            let r = gcd_lcm(num as u64, den as u64);
            if r.0 == 1 {
                proof {
                    lemma_lcm_coprime(num as nat, den as nat);
                }
                let l = r.1 as u32;
                assert(l == lcm(num as nat, den as nat));
                let idx = lower_bound(&ratios, l, num);
                let ghost pre = ratios@;
                assert forall|k: int| idx <= k < pre.len() implies key_lt(
                    (num, den, l),
                    #[trigger] pre[k],
                ) by {
                    let e = pre[k];
                    if e.2 == l && e.0 == num {
                        assert(ratio_valid(base as int, e));
                        assert(lcm(num as nat, e.1 as nat) == lcm(num as nat, den as nat));
                        lemma_coprime_pair_unique(num as nat, e.1 as nat, den as nat);
                        assert(false);
                    }
                }
                proof {
                    assert(num * den >= 6) by (nonlinear_arith)
                        requires
                            num >= 3,
                            den >= 2,
                    ;
                    assert(below_key(pre[0], l, num));
                }
                ratios.insert(idx, (num, den, l));
                proof {
                    pre.insert_ensures(idx as int, (num, den, l));
                    assert forall|a: int, b: int|
                        0 <= a < b < ratios@.len() implies key_lt(
                        #[trigger] ratios@[a],
                        #[trigger] ratios@[b],
                    ) by {
                        if a < idx && b > idx {
                            assert(key_lt(pre[a], pre[b - 1]) || !below_key(pre[b - 1], l, num));
                        }
                    }
                    assert forall|n: nat, d: nat|
                        #[trigger] candidate(base as int, n, d) && (d == 1 || d < den as nat || (d
                            == den as nat && n < num as nat + 1)) implies holds_pair(ratios@, n, d)
                        || (ratios@.len() >= count as int && !outranked_by(
                        n,
                        d,
                        ratios@[count as int - 1],
                    )) by {
                        if n == num as nat && d == den as nat {
                            assert(ratios@[idx as int].0 as nat == n && ratios@[idx as int].1
                                as nat == d);
                            assert(holds_pair(ratios@, n, d));
                        } else {
                            if holds_pair(pre, n, d) {
                                let i = choose|i: int|
                                    0 <= i < pre.len() && (#[trigger] pre[i]).0 as nat == n
                                        && pre[i].1 as nat == d;
                                if i < idx {
                                    assert(ratios@[i] == pre[i]);
                                } else {
                                    assert(ratios@[i + 1] == pre[i]);
                                }
                                assert(holds_pair(ratios@, n, d));
                            } else if pre.len() >= count as int {
                                let c = count as int - 1;
                                if idx <= c - 1 {
                                    assert(ratios@[c] == pre[c - 1]);
                                    assert(key_lt(pre[c - 1], pre[c]));
                                } else if idx == c {
                                    assert(ratios@[c] == (num, den, l));
                                    assert(!below_key(pre[c], l, num));
                                } else {
                                    assert(ratios@[c] == pre[c]);
                                }
                                assert(!outranked_by(n, d, ratios@[c]));
                            }
                        }
                    }
                }
            } else {
                proof {
                    assert(gcd(num as nat, den as nat) != 1);
                }
            }
            num = num + 1;
        }
        let ghost before = ratios@;
        ratios.truncate(count as usize);
        proof {
            if before.len() > count as int {
                assert(ratios@ == before.subrange(0, count as int));
            }
            assert forall|n: nat, d: nat|
                #[trigger] candidate(base as int, n, d) && (d == 1 || d < den as nat
                    + 1) implies holds_pair(ratios@, n, d) || (ratios@.len() >= count as int
                && !outranked_by(n, d, ratios@[count as int - 1])) by {
                assert(d == 1 || d < den as nat || (d == den as nat && n < hi as nat));
                let c = count as int - 1;
                if holds_pair(before, n, d) {
                    let i = choose|i: int|
                        0 <= i < before.len() && (#[trigger] before[i]).0 as nat == n && before[i].1
                            as nat == d;
                    if i < ratios@.len() {
                        assert(ratios@[i] == before[i]);
                        assert(holds_pair(ratios@, n, d));
                    } else {
                        assert(key_lt(before[c], before[i]));
                        assert(before[i].2 as nat == lcm(n, d));
                        assert(ratios@[c] == before[c]);
                        assert(!outranked_by(n, d, ratios@[c]));
                    }
                } else {
                    assert(before.len() >= count as int && !outranked_by(n, d, before[c]));
                    assert(ratios@[c] == before[c]);
                }
            }
        }
        den = den + 1;
    }
    ratios
}

} // verus!
