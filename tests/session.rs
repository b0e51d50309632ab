use tohorank::chara::{Match, Outcome};
use tohorank::session::{read_choice, choice_from_trimmed, Action, Choice, Session, SessionError};

#[test]
fn choices_from_lines() {
    assert_eq!(read_choice("1"), Choice::Left);
    assert_eq!(read_choice("  2 \n"), Choice::Right);
    assert_eq!(read_choice("  1  "), Choice::Left);
    assert_eq!(read_choice("end"), Choice::End);
    assert_eq!(read_choice("end1"), Choice::Left);
    assert_eq!(read_choice("d"), Choice::DislikeBoth);
    assert_eq!(read_choice("l"), Choice::Undo);
    assert_eq!(read_choice("h"), Choice::Help);
    assert_eq!(read_choice(""), Choice::Draw);
    assert_eq!(read_choice("whatever"), Choice::Draw);
    assert_eq!(choice_from_trimmed("  1  "), Choice::Draw);
}

#[test]
fn session_needs_two() {
    assert!(matches!(Session::open(vec![3]), Err(SessionError::InvalidSession)));
    assert!(matches!(Session::open(vec![]), Err(SessionError::InvalidSession)));
    assert!(Session::open(vec![1, 4]).is_ok());
}

#[test]
fn session_steps() {
    let mut s = match Session::open(vec![2, 5, 9]) {
        Ok(s) => s,
        Err(_) => panic!("a pool of three opens"),
    };
    assert_eq!(s.picks, vec![false, false, false]);
    assert_eq!(s.step(0, 1, Choice::Undo), Action::EmptyUndo);
    assert_eq!(s.step(0, 1, Choice::Help), Action::ShowHelp);
    assert_eq!(s.step(0, 1, Choice::Left), Action::Sample);
    assert_eq!(s.step(2, 0, Choice::DislikeBoth), Action::Sample);
    assert_eq!(
        s.records,
        vec![
            Match { one: 2, two: 5, res: Outcome::LeftWins },
            Match { one: 9, two: 2, res: Outcome::BothDisliked },
        ]
    );
    assert_eq!(s.step(1, 2, Choice::Undo), Action::Offer(2, 0));
    assert_eq!(s.records.len(), 1);
    assert_eq!(s.step(1, 2, Choice::Draw), Action::Sample);
    assert_eq!(s.step(1, 2, Choice::End), Action::Commit);
    let taken = s.take_records();
    assert_eq!(taken.len(), 2);
    assert_eq!(taken[1], Match { one: 5, two: 9, res: Outcome::Draw });
    assert!(s.records.is_empty());
}
