use rand::rngs::StdRng;
use rand::SeedableRng;
use std::collections::VecDeque;
use tohorank::chara::{empty_past, Chara, Glicko, START_DEVI, START_RATE, START_VOLA};
use tohorank::sort::{pick_unseen, second_candidates, unseen_candidates};

fn member(name: &str, battles: usize) -> Chara {
    let mut hist = empty_past();
    hist.wins = battles;
    Chara {
        name: name.to_string(),
        rank: Glicko { rate: START_RATE, devi: START_DEVI, vola: START_VOLA },
        hist,
        recent: VecDeque::new(),
        groups: vec![],
        flags: [false; 4],
    }
}

#[test]
fn unseen_character_goes_first() {
    let mut roster: Vec<Chara> = (0..12).map(|i| member(&format!("m{}", i), 3)).collect();
    roster[7] = member("new", 0);
    let pool: Vec<usize> = (0..12).collect();
    let mut picks = vec![false; 12];
    let mut rng = StdRng::seed_from_u64(42);
    assert_eq!(pick_unseen(&roster, &pool, &mut picks, &mut rng), Some(7));
    assert!(picks[7]);
    // once picked, it is not picked for that reason again
    assert_eq!(pick_unseen(&roster, &pool, &mut picks, &mut rng), None);
}

#[test]
fn unseen_candidates_skip_picked() {
    let roster = vec![member("a", 0), member("b", 1), member("c", 0), member("d", 0)];
    let pool = vec![3, 0, 1, 2];
    assert_eq!(unseen_candidates(&roster, &pool, &vec![false, true, false, false]), vec![0, 3]);
}

#[test]
fn random_unseen_picks_stay_among_candidates() {
    let roster = vec![member("a", 0), member("b", 1), member("c", 0), member("d", 5)];
    let pool = vec![0, 1, 2, 3];
    for seed in 0..20u64 {
        let mut picks = vec![false; 4];
        let mut rng = StdRng::seed_from_u64(seed);
        let p = pick_unseen(&roster, &pool, &mut picks, &mut rng);
        assert!(p == Some(0) || p == Some(2));
    }
}

#[test]
fn second_side_is_never_the_first() {
    assert_eq!(second_candidates(4, 0), vec![1, 2, 3]);
    assert_eq!(second_candidates(4, 2), vec![0, 1, 3]);
    assert_eq!(second_candidates(2, 1), vec![0]);
    for first in 0..9 {
        assert!(!second_candidates(9, first).contains(&first));
    }
}
