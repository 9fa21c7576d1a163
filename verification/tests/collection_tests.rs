//! Tests for the number-word helpers, triangular numbers, the calendar,
//! the argument intake, and the prompt's state.

use oddments::config::{self, Config};
use oddments::pentazygon::{current_date, date_string, month_name, month_weeks, Curr};
use oddments::prim;
use oddments::tetractys::{tetrads, tri_upto, triangular};
use oddments::tui::history::History;
use oddments::tui::input_line::InputLine;
use oddments::tui::matches::Matches;
use oddments::tui::{typing, ConsoleState, KeyEvent, Tui, TuiResult};
use std::collections::HashMap;

#[test]
fn number_words_spell_values() {
    assert_eq!(prim::ones(0), "zero");
    assert_eq!(prim::ones(7), "seven");
    assert_eq!(prim::teens(3), "thirteen");
    assert_eq!(prim::tens(10), "ten");
    assert_eq!(prim::tens(87), "eighty seven");
    assert_eq!(prim::tens(40), "fourty");
    assert_eq!(prim::translate_three_digits(321), "three hundred twenty one");
    assert_eq!(prim::translate_three_digits(305), "three hundred five");
    assert_eq!(prim::translate_three_digits(300), "three hundred ");
    assert_eq!(prim::anglicize(&23), "twenty three");
    assert_eq!(prim::anglicize(&0), "");
    assert_eq!(prim::anglicize(&-4), "");
}

#[test]
fn tally_counts_letters_only() {
    assert_eq!(prim::tally("walrus"), 6);
    assert_eq!(prim::tally("twenty three"), 11);
    assert_eq!(prim::tally("a1 b2"), 2);
    assert_eq!(prim::tally(""), 0);
}

#[test]
fn nummify_reads_spelled_numbers() {
    assert_eq!(prim::nummify("twenty three"), 23);
    assert_eq!(prim::nummify("six"), 6);
    assert_eq!(prim::nummify(""), 0);
    // A place-holder subtracts one; the digits scale by position count.
    assert_eq!(prim::nummify("one hundred"), 9);
    assert_eq!(prim::index_into_numonym("nineteen"), 19);
    assert_eq!(prim::index_into_numonym("ninety"), 90);
    assert_eq!(prim::nummify_checked("twenty three"), Some(23));
    assert_eq!(prim::nummify_checked("walrus"), None);
}

#[test]
fn get_num_index_finds_first_position() {
    let array = vec!["zero".to_string(), "one".to_string(), "two".to_string()];
    assert_eq!(prim::get_num_index(&"one".to_string(), &array), Some(1));
    assert_eq!(prim::get_num_index(&"nine".to_string(), &array), None);
}

#[test]
fn primitivize_walks_to_four() {
    let rows = prim::primitivize("walrus");
    let prims: Vec<i32> = rows.iter().map(|r| r.prim).collect();
    assert_eq!(prims, vec![6, 3, 5, 4]);
    assert_eq!(rows[0].eng, "six");
    assert_eq!(rows[3].eng, "four");
    let pd_of_four = 4 - prim::tally("four");
    assert_eq!(rows[3].pd, pd_of_four);
}

#[test]
fn pd_subtracts_the_spelling_tally() {
    assert_eq!(prim::pd(23), 23 - 11);
    assert_eq!(prim::pd(0), 0);
    assert_eq!(prim::pd(-7), -7);
}

#[test]
fn triangular_numbers_build_up() {
    assert_eq!(triangular(0), 1);
    assert_eq!(triangular(1), 1);
    assert_eq!(triangular(3), 6);
    assert_eq!(triangular(6), 21);
    assert_eq!(tetrads(4), vec![1, 2, 3, 4]);
    assert_eq!(tri_upto(3), vec![6, 3, 1]);
}

#[test]
fn calendar_projects_seconds_and_prints() {
    let secs: u64 = 31536000 * 40 + 86400 * 100;
    let c = current_date(secs);
    assert_eq!(c.year, 2010);
    assert_eq!(c.month, 1);
    assert_eq!(c.day, (100 - 10) % 73);
    assert_eq!(month_name(1), "Uttunul");
    assert_eq!(month_name(0), "");
    let d = Curr { day: 11, month: 2, year: 2005 };
    assert_eq!(
        date_string(&d),
        "The 11st day of Murrumur in the year 5 AOK.\n\n"
    );
    let rows = month_weeks();
    assert_eq!(rows.len(), 9);
    assert_eq!(rows[0], vec!["1", "2", "3", "4", "5", "6", "7", "8", "9"]);
    assert_eq!(rows[8], vec!["73"]);
}

#[test]
fn config_reads_arguments() {
    let args = vec!["vivi".to_string()];
    let c = Config::new(&args).unwrap();
    assert!(c.none);
    assert_eq!(c.query, "");
    let args = vec!["vivi".to_string(), "X + Y!".to_string(), "-dx".to_string()];
    let c = Config::new(&args).unwrap();
    assert!(!c.none);
    assert_eq!(c.query, "x + y!");
    assert_eq!(c.flags, vec!["-dx".to_string()]);
    assert_eq!(config::sanitize_query("Ab\u{1F605}c 1*2"), "abc 1*2");
}

#[test]
fn input_line_edits_at_the_cursor() {
    let mut line = InputLine::from_string("abc".to_string());
    assert_eq!(line.len(), 3);
    assert_eq!(line.cursor(), 3);
    line.insert('d');
    assert_eq!(line.as_str(), "abcd");
    line.cursor_left();
    line.backspace();
    assert_eq!(line.as_str(), "abd");
    assert_eq!(line.cursor(), 2);
    line.cursor_left();
    line.cursor_left();
    line.delete_key();
    assert_eq!(line.as_str(), "bd");
    line.cursor_right();
    line.cursor_right();
    assert_eq!(line.cursor(), 2);
    assert_eq!(line.into_string(), "bd");
}

#[test]
fn history_remembers_and_steps() {
    let mut h = History::default();
    assert_eq!(h.current_query(), None);
    h.save((54, "aok".to_string()));
    h.save((100, "zero".to_string()));
    assert_eq!(h.current_query(), None);
    h.up();
    assert_eq!(h.current_query(), Some("zero"));
    assert_eq!(h.current_number(), Some(100));
    h.up();
    assert_eq!(h.current_query(), Some("aok"));
    h.up();
    assert_eq!(h.current_query(), Some("aok"));
    h.down();
    h.down();
    assert_eq!(h.current_query(), None);
}

#[test]
fn history_matches_groups_sorts_and_dedups() {
    let mut h = History::default();
    assert!(h.matches().is_none());
    h.save((5, "b".to_string()));
    h.save((5, "a".to_string()));
    h.save((5, "a".to_string()));
    h.save((7, "x".to_string()));
    let m = h.matches().unwrap();
    assert_eq!(m.len(), 1);
    assert_eq!(m[&5], vec!["a".to_string(), "b".to_string()]);

    let mut lone = History::default();
    lone.save((9, "q".to_string()));
    lone.save((9, "q".to_string()));
    assert!(lone.matches().is_none());
}

#[test]
fn matches_respects_its_cap() {
    let mut m = Matches::new(2, HashMap::new());
    assert!(m.all().is_none());
    m.save(1, vec!["x".to_string()]);
    assert_eq!(m.get(1), Some(&vec!["x".to_string()]));
    m.save(1, vec!["y".to_string()]);
    assert_eq!(m.get(1), Some(&vec!["x".to_string(), "y".to_string()]));
    m.save(1, vec!["z".to_string()]);
    assert_eq!(m.get(1), Some(&vec!["x".to_string(), "y".to_string()]));
    assert_eq!(m.get(2), None);
    assert!(m.all().is_some());
}

#[test]
fn typing_edits_and_chooses_states() {
    let mut line = InputLine::from_string(String::new());
    assert_eq!(typing(KeyEvent::Char('h'), &mut line), None);
    assert_eq!(typing(KeyEvent::Char('i'), &mut line), None);
    assert_eq!(line.as_str(), "hi");
    assert_eq!(
        typing(KeyEvent::Char('\n'), &mut line),
        Some(ConsoleState::Done)
    );
    assert_eq!(
        typing(KeyEvent::Char('#'), &mut line),
        Some(ConsoleState::Matches)
    );
    assert_eq!(typing(KeyEvent::Esc, &mut line), Some(ConsoleState::Quit));
    assert_eq!(typing(KeyEvent::Up, &mut line), Some(ConsoleState::HistoryUp));
    assert_eq!(typing(KeyEvent::Backspace, &mut line), None);
    assert_eq!(line.as_str(), "h");
}

#[test]
fn tui_runs_a_query_to_done() {
    let mut t = Tui::new("start".to_string());
    assert_eq!(t.query(), "start");
    t.set_print_trinomes(true);
    assert!(t.step(None).is_none());
    assert!(t.step(Some(KeyEvent::Char('o'))).is_none());
    assert!(t.step(Some(KeyEvent::Char('k'))).is_none());
    assert!(t.step(Some(KeyEvent::Char('\n'))).is_none());
    match t.step(None) {
        Some(TuiResult::Done(q)) => assert_eq!(q, "ok"),
        _ => panic!("expected a finished query"),
    }
    t.begin();
    assert!(t.step(None).is_none());
    assert!(t.step(Some(KeyEvent::Char('\n'))).is_none());
    match t.step(None) {
        Some(TuiResult::Quit) => {}
        _ => panic!("an empty line quits"),
    }
}
