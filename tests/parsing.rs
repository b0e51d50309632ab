use std::collections::VecDeque;
use tohorank::chara::{empty_past, Chara, Glicko, START_DEVI, START_RATE, START_VOLA};
use tohorank::data::{chara_from_string, update_from_line, StockUpdate};
use tohorank::groups::Tags;
use tohorank::sort::{bouncer, list_args, parse_filter, read_count};
use tohorank::text::{contains_text, same_text, split_by, split_fields};

fn plain(name: &str, groups: Vec<Tags>, flags: [bool; 4]) -> Chara {
    Chara {
        name: name.to_string(),
        rank: Glicko { rate: START_RATE, devi: START_DEVI, vola: START_VOLA },
        hist: empty_past(),
        recent: VecDeque::new(),
        groups,
        flags,
    }
}

#[test]
fn tag_names() {
    assert_eq!(Tags::EoSD.name(), "Embodiment of Scarlet Devil");
    assert_eq!(Tags::EoSD.exname(), "06 - Koumakan");
    assert_eq!(Tags::book.exname(), "");
    assert_eq!(Tags::st5.name(), "Stage 5/Penultimate");
    assert_eq!(Tags::st5.exname(), "");
    assert!(Tags::UDoALG.is_series_tag());
    assert!(Tags::book.is_series_tag());
    assert!(!Tags::ex.is_series_tag());
    assert!(!Tags::st1.is_series_tag());
}

#[test]
fn tag_keywords() {
    assert_eq!(Tags::parse("EoSD"), Some(Tags::EoSD));
    assert_eq!(Tags::parse("EOSD"), Some(Tags::EoSD));
    assert_eq!(Tags::parse("th06"), Some(Tags::EoSD));
    assert_eq!(Tags::parse("TH07.5"), Some(Tags::IaMP));
    assert_eq!(Tags::parse("St1"), Some(Tags::st1));
    assert_eq!(Tags::parse("book"), Some(Tags::book));
    assert_eq!(Tags::parse("th20"), None);
    assert_eq!(Tags::parse(""), None);
    assert_eq!(Tags::from_keyword("EOSD"), None);
    assert_eq!(Tags::from_keyword("eosd"), Some(Tags::EoSD));
}

#[test]
fn text_helpers() {
    assert_eq!(split_by("a  b", ' '), vec!["a", "", "b"]);
    assert_eq!(split_by("", ' '), vec![""]);
    assert_eq!(split_fields("Reimu; EoSD PCB; pc98"), vec!["Reimu", "EoSD PCB", "pc98"]);
    assert_eq!(split_fields("a;; b;c"), vec!["a;", "b;c"]);
    assert_eq!(split_fields("x; "), vec!["x", ""]);
    assert!(contains_text("-nameless", "namel"));
    assert!(!contains_text("pc9", "pc98"));
    assert!(contains_text("abc", ""));
    assert!(same_text("abc", "abc"));
    assert!(!same_text("abc", "abd"));
}

#[test]
fn filter_line() {
    let (tags, flags, unknown) = parse_filter("th06 -st1 pc98 -namel foo".to_string());
    assert_eq!(tags, vec![(Tags::EoSD, true), (Tags::st1, false)]);
    assert_eq!(flags, [true, false, false]);
    assert_eq!(unknown, vec!["foo".to_string()]);
    let (tags, flags, unknown) = parse_filter("".to_string());
    assert!(tags.is_empty());
    assert_eq!(flags, [false, false, true]);
    assert!(unknown.is_empty());
    let (_, flags, _) = parse_filter("-pc98 notgirl nameless".to_string());
    assert_eq!(flags, [false, true, true]);
}

#[test]
fn bouncer_applies_tags_and_flags() {
    let roster = vec![
        plain("a", vec![Tags::EoSD], [false; 4]),
        plain("b", vec![Tags::EoSD], [true, false, false, false]),
        plain("c", vec![Tags::PCB], [false; 4]),
        plain("d", vec![Tags::EoSD], [false, true, false, false]),
        plain("e", vec![Tags::EoSD], [false, false, true, false]),
    ];
    assert_eq!(bouncer("".to_string(), &roster), vec![0, 2, 3]);
    assert_eq!(bouncer("th06".to_string(), &roster), vec![0, 3]);
    assert_eq!(bouncer("th06 pc98 -nameless".to_string(), &roster), vec![0, 1]);
    assert_eq!(bouncer("notgirl -eosd".to_string(), &roster), vec![2]);
}

#[test]
fn stock_line_makes_character() {
    let c = match chara_from_string("Reimu Hakurei; EoSD PCB EoSD; pc98; notgirl".to_string()) {
        Some(c) => c,
        None => panic!("a well-formed line"),
    };
    assert_eq!(c.name, "Reimu Hakurei");
    assert_eq!(c.groups, vec![Tags::EoSD, Tags::PCB]);
    assert_eq!(c.flags, [true, false, true, false]);
    assert_eq!(c.rank, Glicko { rate: START_RATE, devi: START_DEVI, vola: START_VOLA });
    assert!(chara_from_string("Nobody; th99".to_string()).is_none());
    let bare = match chara_from_string("Alone".to_string()) {
        Some(c) => c,
        None => panic!("a name alone is a line"),
    };
    assert!(bare.groups.is_empty());
}

#[test]
fn stock_line_updates_roster() {
    let mut roster = vec![plain("Cirno", vec![Tags::EoSD], [true, false, false, true])];
    assert_eq!(update_from_line(&mut roster, "".to_string()), StockUpdate::Skipped);
    assert_eq!(update_from_line(&mut roster, "Cirno; GFW EoSD; nameless".to_string()), StockUpdate::Updated);
    assert_eq!(roster.len(), 1);
    assert_eq!(roster[0].groups, vec![Tags::EoSD, Tags::GFW]);
    assert_eq!(roster[0].flags, [false, true, false, true]);
    assert_eq!(update_from_line(&mut roster, "Rumia; EoSD; st1".to_string()), StockUpdate::Added);
    assert_eq!(roster.len(), 2);
    assert_eq!(roster[1].name, "Rumia");
    assert_eq!(update_from_line(&mut roster, "Rumia; nothing".to_string()), StockUpdate::Invalid);
    assert_eq!(roster[1].groups, vec![Tags::EoSD]);
}

#[test]
fn counts_in_tokens() {
    assert_eq!(read_count("25"), Some(25));
    assert_eq!(read_count("+7"), Some(7));
    assert_eq!(read_count("007"), Some(7));
    assert_eq!(read_count(""), None);
    assert_eq!(read_count("+"), None);
    assert_eq!(read_count("-3"), None);
    assert_eq!(read_count("12a"), None);
    assert_eq!(read_count("99999999999999999999999"), None);
}

#[test]
fn list_arguments() {
    let (n, tags, names) = list_args("list 10 th06 -pc98 reimu hak");
    assert_eq!(n, 10);
    assert_eq!(tags, "th06 -pc98 ");
    assert_eq!(names, "reimu hak ");
    let (n, tags, names) = list_args("  l  ");
    assert_eq!(n, 25);
    assert_eq!(tags, "");
    assert_eq!(names, "");
    let (n, _, names) = list_args("l 5 -nameless 3 x");
    assert_eq!(n, 3);
    assert_eq!(names, "x ");
}
