use std::collections::VecDeque;
use tohorank::chara::{
    empty_past, reset, summon, update_history, find, find_mut, find_mut_exact, best_match, Chara, Glicko, Match, Outcome,
    MAX_HISTORY_SESS, START_DEVI, START_RATE, START_VOLA,
};
use tohorank::groups::Tags;
use tohorank::stats::{filter_group, filter_group_mut, rank_in_group, rank_slice_by_chara, ranking_order};

/// The order key of a rating: the binary64 value mapped so that unsigned
/// order follows the order of the values.
fn key(x: f64) -> u64 {
    let b = x.to_bits();
    if b >> 63 == 1 {
        !b
    } else {
        b | (1u64 << 63)
    }
}

fn chara(name: &str, rate: f64, groups: Vec<Tags>) -> Chara {
    Chara {
        name: name.to_string(),
        rank: Glicko { rate: key(rate), devi: START_DEVI, vola: START_VOLA },
        hist: empty_past(),
        recent: VecDeque::new(),
        groups,
        flags: [false; 4],
    }
}

fn names(v: &[&Chara]) -> Vec<String> {
    v.iter().map(|c| c.name.clone()).collect()
}

#[test]
fn keys_follow_rating_order() {
    assert!(key(1600.0) > key(1500.0));
    assert!(key(-1.0) < key(0.5));
    assert_eq!(key(1500.0), START_RATE);
    assert_eq!(key(350.0), START_DEVI);
    assert_eq!(key(0.06), START_VOLA);
}

#[test]
fn dense_rank_ties_share() {
    let a = chara("a", 1600.0, vec![]);
    let b = chara("b", 1600.0, vec![]);
    let c = chara("c", 1500.0, vec![]);
    let pool = vec![&a, &b, &c];
    assert_eq!(rank_in_group(&a, &pool), (1, 3));
    assert_eq!(rank_in_group(&b, &pool), (1, 3));
    assert_eq!(rank_in_group(&c, &pool), (3, 3));
}

#[test]
fn hidden_characters_do_not_count() {
    let a = chara("a", 1700.0, vec![]);
    let mut b = chara("b", 1800.0, vec![]);
    b.toggle_dont_know();
    assert!(b.dont_know());
    let c = chara("c", 1500.0, vec![]);
    let pool = vec![&a, &b, &c];
    assert_eq!(rank_in_group(&a, &pool), (1, 2));
    assert_eq!(rank_in_group(&c, &pool), (2, 2));
    assert_eq!(rank_in_group(&a, &vec![]), (1, 0));
}

#[test]
fn filter_by_families() {
    let roster = vec![
        chara("reimu", 1500.0, vec![Tags::EoSD, Tags::st6]),
        chara("cirno", 1500.0, vec![Tags::EoSD, Tags::st2]),
        chara("youmu", 1500.0, vec![Tags::PCB, Tags::st6]),
        chara("book", 1500.0, vec![Tags::book]),
    ];
    assert_eq!(filter_group_mut(vec![], &roster), vec![0, 1, 2, 3]);
    assert_eq!(filter_group_mut(vec![(Tags::EoSD, true)], &roster), vec![0, 1]);
    assert_eq!(filter_group_mut(vec![(Tags::EoSD, true), (Tags::PCB, true)], &roster), vec![0, 1, 2]);
    assert_eq!(filter_group_mut(vec![(Tags::EoSD, true), (Tags::st6, true)], &roster), vec![0]);
    assert_eq!(filter_group_mut(vec![(Tags::st2, false)], &roster), vec![0, 2, 3]);
    assert_eq!(filter_group_mut(vec![(Tags::EoSD, false), (Tags::st6, true)], &roster), vec![2]);
    let refs = filter_group(vec![(Tags::st6, true)], &roster);
    assert_eq!(names(&refs), vec!["reimu", "youmu"]);
}

#[test]
fn ranking_is_stable_and_skips_hidden() {
    let a = chara("a", 1500.0, vec![]);
    let b = chara("b", 1600.0, vec![]);
    let c = chara("c", 1500.0, vec![]);
    let mut d = chara("d", 1900.0, vec![]);
    d.toggle_dont_know();
    let pool = vec![&a, &b, &c, &d];
    assert_eq!(ranking_order(&pool), vec![1, 0, 2]);
}

#[test]
fn slice_around_character() {
    let v: Vec<Chara> = (0..6).map(|i| chara(&format!("c{}", i), 1000.0 + 100.0 * i as f64, vec![])).collect();
    let pool: Vec<&Chara> = v.iter().collect();
    // ranking: c5 c4 c3 c2 c1 c0
    assert_eq!(names(&rank_slice_by_chara(&v[5], &pool)), vec!["c5", "c4", "c3"]);
    assert_eq!(names(&rank_slice_by_chara(&v[0], &pool)), vec!["c2", "c1", "c0"]);
    assert_eq!(names(&rank_slice_by_chara(&v[3], &pool)), vec!["c4", "c3", "c2"]);
    let stranger = chara("nobody", 1200.0, vec![]);
    assert!(rank_slice_by_chara(&stranger, &pool).is_empty());
    let small: Vec<&Chara> = vec![&v[0], &v[4]];
    assert_eq!(names(&rank_slice_by_chara(&v[0], &small)), vec!["c4", "c0"]);
}

fn battle(one: usize, two: usize, res: Outcome) -> Match {
    Match { one, two, res }
}

#[test]
fn history_window_evicts_oldest() {
    let mut roster = vec![chara("a", 1600.0, vec![]), chara("b", 1500.0, vec![])];
    let today = "01 Jan, 2024".to_string();
    for period in 0..10u64 {
        roster[0].rank.rate = key(1600.0 + period as f64);
        update_history(&mut roster, &vec![], &today);
        assert!(roster[0].hist.old_rank.len() <= MAX_HISTORY_SESS);
        assert_eq!(roster[0].hist.old_rank.len(), std::cmp::min(period as usize + 1, MAX_HISTORY_SESS));
    }
    // newest first; the three oldest have gone
    let rates: Vec<u64> = roster[0].hist.old_rate.iter().copied().collect();
    let expected: Vec<u64> = (3..10).rev().map(|p| key(1600.0 + p as f64)).collect();
    assert_eq!(rates, expected);
    assert_eq!(roster[1].hist.old_rank.iter().copied().collect::<Vec<_>>(), vec![2; 7]);
}

#[test]
fn peaks_wait_for_five_periods() {
    let mut roster = vec![chara("a", 1500.0, vec![]), chara("b", 1600.0, vec![])];
    for period in 0..4 {
        update_history(&mut roster, &vec![], &format!("day {}", period));
        assert!(roster[0].hist.peak_rank.is_none());
        assert!(roster[0].hist.peak_rate.is_none());
    }
    update_history(&mut roster, &vec![], &"day 4".to_string());
    assert_eq!(roster[0].hist.peak_rank, Some((2, "day 4".to_string())));
    assert_eq!(roster[0].hist.peak_rate, Some((key(1500.0), "day 4".to_string())));
    // a better rank and rating move the peaks
    roster[0].rank.rate = key(1700.0);
    update_history(&mut roster, &vec![], &"day 5".to_string());
    assert_eq!(roster[0].hist.peak_rank, Some((1, "day 5".to_string())));
    assert_eq!(roster[0].hist.peak_rate, Some((key(1700.0), "day 5".to_string())));
    // a worse one leaves them
    roster[0].rank.rate = key(1400.0);
    update_history(&mut roster, &vec![], &"day 6".to_string());
    assert_eq!(roster[0].hist.peak_rank, Some((1, "day 5".to_string())));
    assert_eq!(roster[0].hist.peak_rate, Some((key(1700.0), "day 5".to_string())));
}

#[test]
fn battles_count_for_both_sides() {
    let mut roster = vec![chara("a", 1500.0, vec![]), chara("b", 1500.0, vec![]), chara("c", 1500.0, vec![])];
    let records = vec![
        battle(0, 1, Outcome::LeftWins),
        battle(0, 1, Outcome::RightWins),
        battle(1, 2, Outcome::Draw),
        battle(0, 2, Outcome::BothDisliked),
        battle(2, 1, Outcome::Unknown),
    ];
    let unknown = update_history(&mut roster, &records, &"today".to_string());
    assert_eq!(unknown, 1);
    let counts: Vec<(usize, usize, usize)> = roster.iter().map(|c| (c.hist.wins, c.hist.loss, c.hist.draw)).collect();
    assert_eq!(counts, vec![(1, 2, 0), (1, 1, 1), (0, 1, 1)]);
    assert_eq!(roster[0].recent.len(), 3);
    assert_eq!(roster[0].recent[0], records[3]);
    assert_eq!(roster[1].recent[0], records[4]);
    assert_eq!(roster[2].recent.len(), 3);
    // every character's rank entered its window: all rated alike, all first
    for c in roster.iter() {
        assert_eq!(c.hist.old_rank.iter().copied().collect::<Vec<_>>(), vec![1]);
    }
}

#[test]
fn recent_battles_are_capped() {
    let mut roster = vec![chara("a", 1500.0, vec![]), chara("b", 1500.0, vec![])];
    let records: Vec<Match> = (0..9).map(|_| battle(0, 1, Outcome::LeftWins)).collect();
    update_history(&mut roster, &records, &"t".to_string());
    assert_eq!(roster[0].recent.len(), MAX_HISTORY_SESS);
    assert_eq!(roster[0].hist.wins, 9);
    assert_eq!(roster[1].hist.loss, 9);
}

#[test]
fn reset_clears_rating_and_history() {
    let mut roster = vec![chara("a", 1700.0, vec![Tags::UFO]), chara("b", 1500.0, vec![])];
    roster[0].flags[0] = true;
    update_history(&mut roster, &vec![battle(0, 1, Outcome::LeftWins)], &"t".to_string());
    reset(&mut roster[0]);
    let c = &roster[0];
    assert_eq!(c.rank, Glicko { rate: START_RATE, devi: START_DEVI, vola: START_VOLA });
    assert_eq!((c.hist.wins, c.hist.loss, c.hist.draw), (0, 0, 0));
    assert!(c.hist.old_rank.is_empty() && c.hist.old_rate.is_empty() && c.recent.is_empty());
    assert!(c.hist.peak_rank.is_none() && c.hist.peak_rate.is_none());
    assert_eq!(c.name, "a");
    assert_eq!(c.groups, vec![Tags::UFO]);
    assert!(c.is_pc98());
}

#[test]
fn best_match_takes_first_highest() {
    assert_eq!(best_match(&vec![None, Some(3), Some(7), Some(7), Some(2)]), Some(2));
    assert_eq!(best_match(&vec![None, Some(0), Some(-4)]), None);
    assert_eq!(best_match(&vec![]), None);
}

#[test]
fn fuzzy_find_by_name() {
    let roster = vec![
        chara("Reimu Hakurei", 1500.0, vec![]),
        chara("Marisa Kirisame", 1500.0, vec![]),
        chara("Cirno", 1500.0, vec![]),
    ];
    assert_eq!(find(&roster, "marisa"), Some(1));
    assert_eq!(find(&roster, "cirno"), Some(2));
    assert_eq!(find(&roster, "zzzz"), None);
    assert_eq!(find_mut_exact(&roster, "Cirno"), Some(2));
    assert_eq!(find_mut_exact(&roster, "cirno"), None);
}

#[test]
fn tag_queries() {
    assert!(roster_has(Tags::MoF));
    let c = chara("x", 1500.0, vec![Tags::MoF, Tags::ex]);
    assert!(c.has_tag(&Tags::ex));
    assert!(!c.has_tag(&Tags::st1));
}

fn roster_has(t: Tags) -> bool {
    chara("y", 1500.0, vec![t]).has_tag(&t)
}

#[test]
fn fuzzy_find_for_a_change() {
    let mut roster = vec![chara("Sanae Kochiya", 1500.0, vec![]), chara("Kanako Yasaka", 1500.0, vec![])];
    match find_mut(&mut roster, "kanako") {
        Some(th) => th.toggle_dont_know(),
        None => panic!("kanako is there"),
    }
    assert!(roster[1].dont_know());
    assert!(!roster[0].dont_know());
    assert!(find_mut(&mut roster, "qqq").is_none());
}

#[test]
fn two_characters_at_once() {
    let mut roster = vec![chara("a", 1500.0, vec![]), chara("b", 1500.0, vec![]), chara("c", 1500.0, vec![])];
    {
        let (x, y) = summon(&mut roster, 2, 0);
        assert_eq!((x.name.as_str(), y.name.as_str()), ("c", "a"));
        x.hist.wins = 4;
        y.hist.loss = 5;
    }
    {
        let (x, y) = summon(&mut roster, 0, 1);
        assert_eq!((x.name.as_str(), y.name.as_str()), ("a", "b"));
        y.toggle_dont_know();
    }
    assert_eq!(roster[2].hist.wins, 4);
    assert_eq!(roster[0].hist.loss, 5);
    assert!(roster[1].dont_know());
}
