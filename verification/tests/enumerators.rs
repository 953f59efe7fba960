use tonos::continuous::generate_continuous_ratios;
use tonos::ratios::generate_ratios;

#[test]
fn ratios_base_2_count_3() {
    // The three simplest ratios of an octave base: unison, octave, fifth.
    let r = generate_ratios(2, 3);
    assert_eq!(r, vec![(1, 1, 1), (2, 1, 2), (3, 2, 6)]);
}

#[test]
fn ratios_base_2_count_6() {
    let r = generate_ratios(2, 6);
    assert_eq!(
        r,
        vec![(1, 1, 1), (2, 1, 2), (3, 2, 6), (4, 3, 12), (5, 3, 15), (5, 4, 20)]
    );
}

#[test]
fn ratios_base_3_count_5() {
    let r = generate_ratios(3, 5);
    assert_eq!(r, vec![(1, 1, 1), (2, 1, 2), (3, 1, 3), (3, 2, 6), (5, 2, 10)]);
}

#[test]
fn ratios_count_zero_is_empty() {
    assert!(generate_ratios(2, 0).is_empty());
    assert!(generate_ratios(7, 0).is_empty());
}

#[test]
fn ratios_exact_count() {
    for base in 2..7u32 {
        for count in [1u32, 2, 5, 12, 40] {
            assert_eq!(generate_ratios(base, count).len(), count as usize);
        }
    }
}

#[test]
fn ratios_are_coprime_with_correct_lcm() {
    for base in 2..6u32 {
        for (num, den, l) in generate_ratios(base, 50) {
            assert_eq!(num_integer::gcd(num, den), 1);
            assert_eq!(num_integer::lcm(num, den), l);
            assert!(den >= 1 && num >= den);
            assert!(num <= den * base);
        }
    }
}

#[test]
fn ratios_sorted_by_lcm_then_numerator() {
    for base in 2..6u32 {
        let r = generate_ratios(base, 60);
        for w in r.windows(2) {
            let (a, b) = (w[0], w[1]);
            assert!(a.2 < b.2 || (a.2 == b.2 && a.0 < b.0));
        }
    }
}

#[test]
fn continuous_count_5() {
    // The weight tie between 3/2 and 6/1 (both lcm 6) falls to 3/2, and the
    // weakest seed is pushed out.
    let r = generate_continuous_ratios(5);
    assert_eq!(r, vec![(2, 1, 2), (3, 1, 3), (4, 1, 4), (5, 1, 5), (3, 2, 6)]);
}

#[test]
fn continuous_small_counts_keep_seeds() {
    assert_eq!(generate_continuous_ratios(0), vec![]);
    assert_eq!(generate_continuous_ratios(1), vec![(2, 1, 2)]);
    assert_eq!(generate_continuous_ratios(3), vec![(2, 1, 2), (3, 1, 3), (4, 1, 4)]);
}

#[test]
fn continuous_exact_count_and_weights_descending() {
    for count in [1u32, 2, 7, 25, 100] {
        let r = generate_continuous_ratios(count);
        assert_eq!(r.len(), count as usize);
        for w in r.windows(2) {
            let wa = (w[0].2 as f64).recip();
            let wb = (w[1].2 as f64).recip();
            assert!(wa >= wb);
        }
    }
}

#[test]
fn continuous_ratios_are_coprime_above_one() {
    for (num, den, l) in generate_continuous_ratios(80) {
        assert_eq!(num_integer::gcd(num, den), 1);
        assert_eq!(num_integer::lcm(num, den), l);
        assert!(num > den && den >= 1);
        assert!(l <= 81);
    }
}
