use tohorank::norm::{build, reference_name, weighted_rank_correlation, wrc_fits, wrc_terms};

fn names(v: &[&str]) -> Vec<String> {
    v.iter().map(|s| s.to_string()).collect()
}

fn ratio(t: (i128, i128)) -> f64 {
    t.0 as f64 / t.1 as f64
}

#[test]
fn identical_rankings_correlate_fully() {
    for n in 2..9usize {
        let list: Vec<(usize, usize)> = (1..=n).map(|r| (r, r)).collect();
        for p in 1..4u32 {
            let (num, den) = wrc_terms(&list, p);
            assert_eq!(num, den);
            assert!(den > 0);
        }
    }
    let ranking = names(&["a", "b", "c", "d"]);
    let pairs = build(&ranking, &ranking);
    assert_eq!(pairs, vec![(1, 1), (2, 2), (3, 3), (4, 4)]);
    assert_eq!(weighted_rank_correlation(&pairs, 2).map(ratio), Some(1.0));
}

#[test]
fn reversed_rankings_with_unit_weight_give_minus_one() {
    let list = vec![(1, 3), (2, 2), (3, 1)];
    let (num, den) = wrc_terms(&list, 1);
    assert_eq!((num, den), (-4, 4));
}

#[test]
fn weighted_value_for_a_swap() {
    // n = 3, p = 2: the sums of squares and cubes are 14 and 36
    let list = vec![(1, 2), (2, 1), (3, 3)];
    let (num, den) = wrc_terms(&list, 2);
    assert_eq!(den, 2 * 36 - 4 * 14);
    // 2*3^2 + 1*2^2 + 1*2^2 + 2*3^2 + 3*1 + 3*1 = 18+4+4+18+3+3 = 50
    assert_eq!(num, 4 * 14 - 50);
}

#[test]
fn build_closes_gaps() {
    let ranking = names(&["a", "x", "b", "c", "y"]);
    let reference = names(&["c", "z", "a", "b"]);
    // both hold a, b, c; ranking order a b c; reference order c a b
    assert_eq!(build(&ranking, &reference), vec![(1, 2), (2, 3), (3, 1)]);
    assert!(build(&ranking, &names(&["q"])).is_empty());
}

#[test]
fn correlation_refuses_bad_input() {
    assert_eq!(weighted_rank_correlation(&vec![(1, 3), (2, 1)], 2), None);
    assert_eq!(weighted_rank_correlation(&vec![(0, 1), (2, 2)], 2), None);
    assert!(wrc_fits(1000, 4));
    assert!(!wrc_fits(1000, 6));
    assert!(wrc_fits(0, 100));
    let big: Vec<(usize, usize)> = (1..=1000).map(|r| (r, r)).collect();
    assert_eq!(weighted_rank_correlation(&big, 6), None);
}

#[test]
fn reference_lines() {
    assert_eq!(reference_name("12. Cirno"), Some("Cirno".to_string()));
    assert_eq!(reference_name("  3.   Marisa Kirisame  "), Some("Marisa Kirisame".to_string()));
    assert_eq!(reference_name("4. Dr. Who"), Some("Dr".to_string()));
    assert_eq!(reference_name("no dot"), None);
}
