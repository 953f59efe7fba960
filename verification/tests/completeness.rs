//! Cross-checks against a brute-force enumeration: the functions must return
//! exactly the lowest-ranked coprime pairs, not merely well-formed ones.

use tonos::continuous::generate_continuous_ratios;
use tonos::ratios::generate_ratios;

// Every coprime pair the enumeration may draw from, for denominators small
// enough that anything beyond cannot rank among the chosen ones.
fn brute_force_candidates(base: u32, max_den: u32) -> Vec<(u32, u32, u32)> {
    let mut all: Vec<(u32, u32, u32)> = Vec::new();
    for n in 1..base + 1 {
        all.push((n, 1, n));
    }
    for d in 2..max_den + 1 {
        for n in d + 1..d * base {
            if num_integer::gcd(n, d) == 1 {
                all.push((n, d, num_integer::lcm(n, d)));
            }
        }
    }
    all.sort_by_key(|&(n, _, l)| (l, n));
    all
}

#[test]
fn ratios_match_brute_force() {
    for base in 2..5u32 {
        for count in [1u32, 4, 10, 20, 33] {
            let mut expected = brute_force_candidates(base, 200);
            expected.truncate(count as usize);
            assert_eq!(generate_ratios(base, count), expected);
        }
    }
}

#[test]
fn continuous_lcms_match_brute_force() {
    // Ties in the weight leave open which of two equal-lcm ratios survives
    // the cut, so compare the multiset of lcms, which ties cannot change.
    for count in [1u32, 5, 12, 30] {
        let mut lcms: Vec<u64> = Vec::new();
        for n in 2..200u64 {
            lcms.push(n);
        }
        for d in 2..200u64 {
            for n in d + 1..200u64 {
                if num_integer::gcd(n, d) == 1 {
                    lcms.push(num_integer::lcm(n, d));
                }
            }
        }
        lcms.sort();
        lcms.truncate(count as usize);
        let mut got: Vec<u64> = generate_continuous_ratios(count)
            .into_iter()
            .map(|(_, _, l)| l)
            .collect();
        got.sort();
        assert_eq!(got, lcms);
    }
}
