//! Enumeration of the most resonant coprime ratios for the continuous sweep:
//! ranked by weight `1 / lcm(numerator, denominator)` in descending order,
//! which is ascending order of the lcm, independent of any base.

use crate::arith::{gcd, gcd_lcm, lcm, lemma_gcd_one, lemma_lcm_coprime, lemma_lcm_le_product};
use vstd::prelude::*;

verus! {

/// A well-formed continuous ratio `(numerator, denominator, lcm)`: a coprime
/// pair greater than one, with its lcm, whose weight `1 / lcm` is at least
/// the weight of the weakest seed ratio `(count + 1) / 1`.
pub open spec fn cont_valid(count: int, t: (u64, u64, u64)) -> bool {
    &&& 1 <= t.1 < t.0
    &&& gcd(t.0 as nat, t.1 as nat) == 1
    &&& t.2 == lcm(t.0 as nat, t.1 as nat)
    &&& t.2 <= count + 1
}

/// A pair the continuous enumeration draws from: a coprime ratio greater
/// than one.
pub open spec fn cont_candidate(n: nat, d: nat) -> bool {
    &&& 1 <= d < n
    &&& gcd(n, d) == 1
}

/// The pair `(n, d)` appears in the sequence.
pub open spec fn cont_holds_pair(s: Seq<(u64, u64, u64)>, n: nat, d: nat) -> bool {
    exists|i: int| 0 <= i < s.len() && (#[trigger] s[i]).0 as nat == n && s[i].1 as nat == d
}

/// Non-decreasing in the lcm, that is non-increasing in the weight.
pub open spec fn sorted_by_lcm(s: Seq<(u64, u64, u64)>) -> bool {
    forall|i: int, j: int| 0 <= i <= j < s.len() ==> (#[trigger] s[i]).2 <= (#[trigger] s[j]).2
}

/// No coprime pair appears twice.
pub open spec fn distinct_pairs(s: Seq<(u64, u64, u64)>) -> bool {
    forall|i: int, j: int|
        0 <= i < j < s.len() ==> ((#[trigger] s[i]).0 != (#[trigger] s[j]).0 || s[i].1 != s[j].1)
}

/// The insertion index that binary search by descending weight picks for a
/// ratio of lcm `l`: everything before it has no larger lcm, nothing after
/// has a smaller one. The probe sequence is the one the standard library's
/// slice binary search uses, so equal weights land where it puts them.
fn search_pos(v: &Vec<(u64, u64, u64)>, l: u64) -> (idx: usize)
    requires
        sorted_by_lcm(v@),
    ensures
        idx <= v@.len(),
        forall|i: int| 0 <= i < idx ==> (#[trigger] v@[i]).2 <= l,
        forall|i: int| idx <= i < v@.len() ==> (#[trigger] v@[i]).2 >= l,
{
    let mut size = v.len();
    if size == 0 {
        return 0;
    }
    let mut low: usize = 0;
    while size > 1
        invariant
            1 <= size,
            low + size <= v@.len(),
            v@.len() <= usize::MAX,
            sorted_by_lcm(v@),
            forall|i: int| 0 <= i < low ==> (#[trigger] v@[i]).2 <= l,
            forall|i: int| low + size <= i < v@.len() ==> (#[trigger] v@[i]).2 >= l,
        decreases size,
    {
        let half = size / 2;
        assert(low + half <= v@.len());
        let mid = low + half;
        if v[mid].2 > l {
            assert forall|i: int| mid <= i < v@.len() implies (#[trigger] v@[i]).2 >= l by {
                assert(v@[mid as int].2 <= v@[i].2);
            }
        } else {
            assert forall|i: int| 0 <= i < mid implies (#[trigger] v@[i]).2 <= l by {
                assert(v@[i].2 <= v@[mid as int].2);
            }
            low = mid;
        }
        size = size - half;
    }
    let t = v[low];
    if t.2 == l {
        low
    } else if t.2 < l {
        low + 1
    } else {
        low
    }
}

/// The `count` most resonant coprime ratios `(numerator, denominator, lcm)`,
/// each greater than one, in descending order of their weight `1 / lcm`.
/// The seeds are `2/1 ..= (count + 1)/1`; every other admitted ratio has a
/// weight no smaller than the weakest seed's, so exactly `count` ratios come
/// back, none with an lcm above `count + 1`, and every coprime pair whose
/// weight is strictly better than the weakest kept one is kept.
pub fn generate_continuous_ratios(count: u32) -> (r: Vec<(u64, u64, u64)>)
    requires
        count <= 0x7FFF_FFFF,
    ensures
        r@.len() == count as int,
        sorted_by_lcm(r@),
        distinct_pairs(r@),
        forall|i: int| 0 <= i < r@.len() ==> cont_valid(count as int, #[trigger] r@[i]),
        count >= 1 ==> r@[0] == (2u64, 1u64, 2u64),
        count >= 1 ==> forall|n: nat, d: nat|
            #[trigger] cont_candidate(n, d) && lcm(n, d) < r@[count as int - 1].2 as nat
                ==> cont_holds_pair(r@, n, d),
{
    let mut ratios: Vec<(u64, u64, u64)> = Vec::new();
    if count == 0 {
        return ratios;
    }
    let limit: u64 = count as u64 + 2;
    let mut i: u64 = 2;
    while i < limit
        invariant
            2 <= i <= limit,
            limit == count as int + 2,
            ratios@.len() == i - 2,
            forall|k: int|
                0 <= k < ratios@.len() ==> {
                    &&& (#[trigger] ratios@[k]).0 == k + 2
                    &&& ratios@[k].1 == 1
                    &&& ratios@[k].2 == k + 2
                },
        decreases limit - i,
    {
        ratios.push((i, 1, i));
        i = i + 1;
    }
    assert forall|k: int| 0 <= k < ratios@.len() implies cont_valid(
        count as int,
        #[trigger] ratios@[k],
    ) by {
        lemma_gcd_one((k + 2) as nat);
        lemma_lcm_coprime((k + 2) as nat, 1);
    }
    assert(ratios@[0] == (2u64, 1u64, 2u64));
    assert forall|n: nat, d: nat|
        #[trigger] cont_candidate(n, d) && d == 1 implies cont_holds_pair(ratios@, n, d) || lcm(
        n,
        d,
    ) >= ratios@[count as int - 1].2 as nat by {
        lemma_lcm_coprime(n, 1);
        if n <= count as nat + 1 {
            let i = n as int - 2;
            assert(ratios@[i].0 as nat == n && ratios@[i].1 as nat == d);
            assert(cont_holds_pair(ratios@, n, d));
        } else {
            assert(ratios@[count as int - 1].2 == count as int + 1);
        }
    }
    let den_limit: u64 = count as u64 + 2;
    let mut den: u64 = 2;
    loop
        invariant
            1 <= count <= 0x7FFF_FFFF,
            2 <= den <= den_limit,
            den_limit == count as int + 2,
            ratios@.len() == count as int,
            sorted_by_lcm(ratios@),
            distinct_pairs(ratios@),
            forall|k: int|
                0 <= k < ratios@.len() ==> cont_valid(count as int, #[trigger] ratios@[k]),
            forall|k: int| 0 <= k < ratios@.len() ==> (#[trigger] ratios@[k]).1 < den,
            ratios@[0] == (2u64, 1u64, 2u64),
            forall|n: nat, d: nat|
                #[trigger] cont_candidate(n, d) && (d == 1 || d < den as nat)
                    ==> cont_holds_pair(ratios@, n, d) || lcm(n, d) >= ratios@[count as int
                    - 1].2 as nat,
        ensures
            ratios@.len() == count as int,
            sorted_by_lcm(ratios@),
            distinct_pairs(ratios@),
            forall|k: int|
                0 <= k < ratios@.len() ==> cont_valid(count as int, #[trigger] ratios@[k]),
            ratios@[0] == (2u64, 1u64, 2u64),
            forall|n: nat, d: nat|
                #[trigger] cont_candidate(n, d) && lcm(n, d) < ratios@[count as int - 1].2 as nat
                    ==> cont_holds_pair(ratios@, n, d),
        decreases den_limit - den,
    {
        let c = count as usize - 1;
        if den >= den_limit {
            proof {
                assert forall|n: nat, d: nat|
                    #[trigger] cont_candidate(n, d) && lcm(n, d) < ratios@[count as int - 1].2
                        as nat implies cont_holds_pair(ratios@, n, d) by {
                    if !(d == 1 || d < den as nat) {
                        lemma_lcm_coprime(n, d);
                        assert(n * d >= (d + 1) * d) by (nonlinear_arith)
                            requires
                                n >= d + 1,
                                d >= 1,
                        ;
                        assert((d + 1) * d > count as nat + 1) by (nonlinear_arith)
                            requires
                                d >= count as nat + 2,
                                count as nat >= 1,
                        ;
                        assert(ratios@[count as int - 1].2 <= count as int + 1);
                        assert(false);
                    }
                }
            }
            break;
        }
        let max_lcm = ratios[c].2;
        assert(max_lcm <= count as int + 1);
        assert(den * (den + 1) <= u64::MAX) by (nonlinear_arith)
            requires
                2 <= den <= 0x8000_0001u64,
        ;
        if den * (den + 1) > max_lcm {
            proof {
                assert forall|n: nat, d: nat|
                    #[trigger] cont_candidate(n, d) && lcm(n, d) < ratios@[count as int - 1].2
                        as nat implies cont_holds_pair(ratios@, n, d) by {
                    if !(d == 1 || d < den as nat) {
                        lemma_lcm_coprime(n, d);
                        assert(n * d >= (d + 1) * d) by (nonlinear_arith)
                            requires
                                n >= d + 1,
                                d >= 1,
                        ;
                        assert((d + 1) * d >= (den as nat + 1) * (den as nat)) by (nonlinear_arith)
                            requires
                                d >= den as nat,
                                den as nat >= 1,
                        ;
                        assert((den as nat + 1) * (den as nat) == (den as nat) * (den as nat
                            + 1)) by (nonlinear_arith);
                        assert(false);
                    }
                }
            }
            break;
        }
        assert(den + 1 <= den * (den + 1)) by (nonlinear_arith)
            requires
                1 <= den,
        ;
        let num_limit: u64 = max_lcm + 2;
        let mut num: u64 = den + 1;
        loop
            invariant
                1 <= count <= 0x7FFF_FFFF,
                2 <= den <= count as int + 1,
                den + 1 <= num <= num_limit,
                num_limit == max_lcm + 2,
                max_lcm <= count as int + 1,
                sorted_by_lcm(ratios@),
                distinct_pairs(ratios@),
                forall|k: int|
                    0 <= k < ratios@.len() ==> cont_valid(count as int, #[trigger] ratios@[k]),
                forall|k: int|
                    0 <= k < ratios@.len() ==> {
                        let e = #[trigger] ratios@[k];
                        e.1 < den || (e.1 == den && e.0 < num)
                    },
                ratios@.len() >= count as int,
                ratios@[0] == (2u64, 1u64, 2u64),
                ratios@[count as int - 1].2 <= max_lcm,
                forall|n: nat, d: nat|
                    #[trigger] cont_candidate(n, d) && (d == 1 || d < den as nat || (d == den
                        as nat && n < num as nat)) ==> cont_holds_pair(ratios@, n, d) || lcm(n, d)
                        >= ratios@[count as int - 1].2 as nat,
            ensures
                sorted_by_lcm(ratios@),
                distinct_pairs(ratios@),
                forall|k: int|
                    0 <= k < ratios@.len() ==> cont_valid(count as int, #[trigger] ratios@[k]),
                forall|k: int| 0 <= k < ratios@.len() ==> (#[trigger] ratios@[k]).1 <= den,
                ratios@.len() >= count as int,
                ratios@[0] == (2u64, 1u64, 2u64),
                forall|n: nat, d: nat|
                    #[trigger] cont_candidate(n, d) && (d == 1 || d <= den as nat)
                        ==> cont_holds_pair(ratios@, n, d) || lcm(n, d) >= ratios@[count as int
                        - 1].2 as nat,
            decreases num_limit - num,
        {
            if num >= num_limit {
                proof {
                    assert forall|n: nat, d: nat|
                        #[trigger] cont_candidate(n, d) && (d == 1 || d <= den
                            as nat) implies cont_holds_pair(ratios@, n, d) || lcm(n, d) >= ratios@[
                        count as int - 1].2 as nat by {
                        if d == den as nat && n >= num as nat {
                            lemma_lcm_coprime(n, d);
                            assert(n * d >= n) by (nonlinear_arith)
                                requires
                                    d >= 1,
                                    n >= 0,
                            ;
                        }
                    }
                }
                break;
            }
            proof {
                lemma_lcm_le_product(num as nat, den as nat);
                assert(num * den <= u64::MAX) by (nonlinear_arith)
                    requires
                        1 <= num <= 0x8000_0002u64,
                        1 <= den <= 0x8000_0000u64,
                ;
            }
            let r = gcd_lcm(num, den);
            if r.0 == 1 {
                if r.1 > max_lcm {
                    proof {
                        lemma_lcm_coprime(num as nat, den as nat);
                        assert forall|n: nat, d: nat|
                            #[trigger] cont_candidate(n, d) && (d == 1 || d <= den
                                as nat) implies cont_holds_pair(ratios@, n, d) || lcm(n, d)
                            >= ratios@[count as int - 1].2 as nat by {
                            if d == den as nat && n >= num as nat {
                                lemma_lcm_coprime(n, d);
                                assert(n * d >= num as nat * d) by (nonlinear_arith)
                                    requires
                                        n >= num as nat,
                                        d >= 1,
                                ;
                            }
                        }
                    }
                    break;
                }
                let idx = search_pos(&ratios, r.1);
                let ghost pre = ratios@;
                proof {
                    lemma_lcm_coprime(num as nat, den as nat);
                    assert(num * den >= 6) by (nonlinear_arith)
                        requires
                            num >= 3,
                            den >= 2,
                    ;
                    assert(idx >= 1) by {
                        if idx == 0 {
                            assert(pre[0].2 >= r.1);
                        }
                    }
                }
                ratios.insert(idx, (num, den, r.1));
                proof {
                    pre.insert_ensures(idx as int, (num, den, r.1));
                    assert forall|a: int, b: int|
                        0 <= a <= b < ratios@.len() implies (#[trigger] ratios@[a]).2 <= (
                    #[trigger] ratios@[b]).2 by {
                        if a < idx && b > idx {
                            assert(pre[a].2 <= pre[b - 1].2 || pre[b - 1].2 >= r.1);
                        }
                    }
                    assert forall|a: int, b: int|
                        0 <= a < b < ratios@.len() implies ((#[trigger] ratios@[a]).0 != (
                    #[trigger] ratios@[b]).0 || ratios@[a].1 != ratios@[b].1) by {
                        if a == idx {
                            let e = pre[b - 1];
                            assert(e.1 < den || (e.1 == den && e.0 < num));
                        } else if b == idx {
                            let e = pre[a];
                            assert(e.1 < den || (e.1 == den && e.0 < num));
                        } else {
                            if a < idx {
                                assert(ratios@[a] == pre[a]);
                            } else {
                                assert(ratios@[a] == pre[a - 1]);
                            }
                            if b < idx {
                                assert(ratios@[b] == pre[b]);
                            } else {
                                assert(ratios@[b] == pre[b - 1]);
                            }
                        }
                    }
                    let cc = count as int - 1;
                    assert(ratios@[cc].2 <= pre[cc].2) by {
                        if idx <= cc - 1 {
                            assert(ratios@[cc] == pre[cc - 1]);
                            assert(pre[cc - 1].2 <= pre[cc].2);
                        } else if idx == cc {
                            assert(ratios@[cc] == (num, den, r.1));
                            assert(pre[cc].2 >= r.1);
                        } else {
                            assert(ratios@[cc] == pre[cc]);
                        }
                    }
                    assert forall|n: nat, d: nat|
                        #[trigger] cont_candidate(n, d) && (d == 1 || d < den as nat || (d == den
                            as nat && n < num as nat + 1)) implies cont_holds_pair(ratios@, n, d)
                        || lcm(n, d) >= ratios@[cc].2 as nat by {
                        if n == num as nat && d == den as nat {
                            assert(ratios@[idx as int].0 as nat == n && ratios@[idx as int].1
                                as nat == d);
                            assert(cont_holds_pair(ratios@, n, d));
                        } else if cont_holds_pair(pre, n, d) {
                            let i = choose|i: int|
                                0 <= i < pre.len() && (#[trigger] pre[i]).0 as nat == n && pre[i].1
                                    as nat == d;
                            if i < idx {
                                assert(ratios@[i] == pre[i]);
                            } else {
                                assert(ratios@[i + 1] == pre[i]);
                            }
                            assert(cont_holds_pair(ratios@, n, d));
                        }
                    }
                }
            } else {
                proof {
                    assert(gcd(num as nat, den as nat) != 1);
                }
            }
            num = num + 1;
        }
        let ghost before = ratios@;
        ratios.truncate(count as usize);
        proof {
            if before.len() > count as int {
                assert(ratios@ == before.subrange(0, count as int));
            }
            let cc = count as int - 1;
            assert forall|n: nat, d: nat|
                #[trigger] cont_candidate(n, d) && (d == 1 || d < den as nat
                    + 1) implies cont_holds_pair(ratios@, n, d) || lcm(n, d) >= ratios@[cc].2
                as nat by {
                if cont_holds_pair(before, n, d) {
                    let i = choose|i: int|
                        0 <= i < before.len() && (#[trigger] before[i]).0 as nat == n && before[i].1
                            as nat == d;
                    if i < ratios@.len() {
                        assert(ratios@[i] == before[i]);
                        assert(cont_holds_pair(ratios@, n, d));
                    } else {
                        assert(before[cc].2 <= before[i].2);
                        assert(before[i].2 as nat == lcm(n, d));
                        assert(ratios@[cc] == before[cc]);
                    }
                } else {
                    assert(ratios@[cc] == before[cc]);
                }
            }
        }
        den = den + 1;
    }
    ratios
}

} // verus!
