use chooser::interface::{
    clamp_selected, visible_rows, Action, Error, Interface, WINDOW_SIZE,
};
use chooser::terminal::Key;

fn strings(items: &[&str]) -> Vec<String> {
    items.iter().map(|s| s.to_string()).collect()
}

fn fruit() -> Interface {
    Interface::with_choices(strings(&["apple", "apricot", "banana"]), 80)
}

fn many(n: usize) -> Interface {
    let items: Vec<String> = (0..n).map(|i| format!("item{}", i)).collect();
    Interface::with_choices(items, 80)
}

fn type_text(ui: &mut Interface, text: &str) {
    for c in text.chars() {
        assert_eq!(ui.handle(Key::Char(c)), Action::Render);
    }
}

fn shown(ui: &Interface) -> Vec<String> {
    ui.matching().iter().map(|m| ui.choices()[m.index].clone()).collect()
}

#[test]
fn a_new_chooser_shows_every_candidate() {
    let ui = fruit();
    assert_eq!(ui.search(), "");
    assert_eq!(ui.selected(), 0);
    assert_eq!(shown(&ui), strings(&["apple", "apricot", "banana"]));
    assert_eq!(ui.choices(), &strings(&["apple", "apricot", "banana"]));
}

#[test]
fn typing_filters_the_candidates() {
    let mut ui = fruit();
    type_text(&mut ui, "ap");
    assert_eq!(ui.search(), "ap");
    let list = shown(&ui);
    assert_eq!(list.len(), 2);
    assert!(list.contains(&"apple".to_string()));
    assert!(list.contains(&"apricot".to_string()));
    assert!(!list.contains(&"banana".to_string()));
}

#[test]
fn ranked_list_is_ordered_by_the_filter_score() {
    let mut ui = fruit();
    type_text(&mut ui, "ap");
    let apple = rff::scorer::score("ap", "apple");
    let apricot = rff::scorer::score("ap", "apricot");
    let expected = if apricot > apple {
        strings(&["apricot", "apple"])
    } else {
        strings(&["apple", "apricot"])
    };
    assert_eq!(shown(&ui), expected);
    let scores: Vec<i64> = ui.matching().iter().map(|m| m.score).collect();
    assert!(scores[0] >= scores[1]);
}

#[test]
fn enter_confirms_the_selected_match() {
    let mut ui = fruit();
    type_text(&mut ui, "ap");
    let list = shown(&ui);
    assert_eq!(ui.handle(Key::Char('\n')), Action::Confirm);
    assert_eq!(ui.result(), list[0]);
    assert_eq!(ui.handle(Key::Ctrl('n')), Action::Render);
    assert_eq!(ui.selected(), 1);
    assert_eq!(ui.handle(Key::Char('\n')), Action::Confirm);
    assert_eq!(ui.result(), list[1]);
}

#[test]
fn run_types_and_confirms() {
    let mut ui = fruit();
    let keys = vec![Key::Char('a'), Key::Char('p'), Key::Char('\n')];
    let result = ui.run(&keys).unwrap();
    assert_eq!(result, shown(&ui)[0]);
    assert!(result == "apple" || result == "apricot");
}

#[test]
fn run_with_a_perfect_match_first() {
    let mut ui = Interface::with_choices(strings(&["banana", "bandana", "ban"]), 80);
    let keys = vec![Key::Char('b'), Key::Char('a'), Key::Char('n'), Key::Char('\n')];
    assert_eq!(ui.run(&keys).unwrap(), "ban");
}

#[test]
fn nothing_to_choose_from_yields_the_query() {
    let mut ui = Interface::with_choices(vec![], 80);
    let keys = vec![Key::Char('x'), Key::Char('y'), Key::Char('z'), Key::Char('\n')];
    assert_eq!(ui.run(&keys).unwrap(), "xyz");
    assert_eq!(ui.matching().len(), 0);
    assert_eq!(ui.selected(), 0);
}

#[test]
fn no_match_yields_the_query() {
    let mut ui = fruit();
    type_text(&mut ui, "zzz");
    assert!(ui.matching().is_empty());
    assert_eq!(ui.result(), "zzz");
}

#[test]
fn cancel_after_one_character() {
    let mut ui = fruit();
    let keys = vec![Key::Char('a'), Key::Ctrl('c')];
    assert!(matches!(ui.run(&keys), Err(Error::Exit)));
    assert_eq!(ui.search(), "a");
}

#[test]
fn control_d_cancels_too() {
    let mut ui = fruit();
    assert_eq!(ui.handle(Key::Ctrl('d')), Action::Cancel);
    assert!(matches!(ui.run(&vec![Key::Ctrl('d'), Key::Char('\n')]), Err(Error::Exit)));
}

#[test]
fn cancel_differs_from_confirming_an_empty_query() {
    let mut cancelled = Interface::with_choices(vec![], 80);
    let mut confirmed = Interface::with_choices(vec![], 80);
    assert!(matches!(cancelled.run(&vec![Key::Ctrl('c')]), Err(Error::Exit)));
    assert_eq!(confirmed.run(&vec![Key::Char('\n')]).unwrap(), "");
}

#[test]
fn keys_after_the_end_play_no_part() {
    let mut ui = fruit();
    let keys = vec![Key::Char('b'), Key::Char('\n'), Key::Char('x'), Key::Ctrl('c')];
    assert_eq!(ui.run(&keys).unwrap(), "banana");
    assert_eq!(ui.search(), "b");
}

#[test]
fn keys_running_out_confirm() {
    let mut ui = fruit();
    assert_eq!(ui.run(&vec![Key::Char('b')]).unwrap(), "banana");
    let mut untouched = fruit();
    assert_eq!(untouched.run(&vec![]).unwrap(), "apple");
}

#[test]
fn backspace_takes_the_last_character() {
    let mut ui = fruit();
    type_text(&mut ui, "apx");
    assert!(ui.matching().is_empty());
    assert_eq!(ui.handle(Key::Backspace), Action::Render);
    assert_eq!(ui.search(), "ap");
    assert_eq!(ui.matching().len(), 2);
    assert_eq!(ui.handle(Key::Ctrl('h')), Action::Render);
    assert_eq!(ui.search(), "a");
    assert_eq!(ui.matching().len(), 3);
}

#[test]
fn backspace_takes_a_whole_character() {
    let mut ui = fruit();
    type_text(&mut ui, "a山");
    ui.handle(Key::Backspace);
    assert_eq!(ui.search(), "a");
}

#[test]
fn backspace_on_an_empty_query_changes_nothing() {
    let mut ui = fruit();
    ui.handle(Key::Ctrl('n'));
    let before = (ui.search().to_string(), ui.selected(), ui.matching().clone());
    assert_eq!(ui.handle(Key::Backspace), Action::Render);
    assert_eq!((ui.search().to_string(), ui.selected(), ui.matching().clone()), before);
    assert_eq!(ui.handle(Key::Ctrl('h')), Action::Render);
    assert_eq!((ui.search().to_string(), ui.selected(), ui.matching().clone()), before);
}

#[test]
fn recomputing_twice_gives_the_same_list() {
    let mut ui = fruit();
    ui.filter_choices(String::new());
    let first = ui.matching().clone();
    ui.filter_choices(String::new());
    assert_eq!(ui.matching(), &first);
    assert_eq!(shown(&ui), strings(&["apple", "apricot", "banana"]));
    type_text(&mut ui, "a");
    let typed = ui.matching().clone();
    ui.filter_choices("a".to_string());
    assert_eq!(ui.matching(), &typed);
}

#[test]
fn a_new_query_replaces_the_old_one() {
    let mut ui = fruit();
    ui.handle(Key::Ctrl('n'));
    ui.handle(Key::Ctrl('n'));
    ui.filter_choices("ban".to_string());
    assert_eq!(ui.search(), "ban");
    assert_eq!(shown(&ui), strings(&["banana"]));
    assert_eq!(ui.selected(), 0);
    assert_eq!(ui.result(), "banana");
}

#[test]
fn selection_moves_down_and_stops_at_the_last_row() {
    let mut ui = fruit();
    for expected in [1, 2, 2, 2] {
        assert_eq!(ui.handle(Key::Ctrl('n')), Action::Render);
        assert_eq!(ui.selected(), expected);
    }
}

#[test]
fn selection_moves_up_and_stops_at_the_first_row() {
    let mut ui = fruit();
    ui.handle(Key::Ctrl('n'));
    ui.handle(Key::Ctrl('n'));
    for expected in [1, 0, 0] {
        assert_eq!(ui.handle(Key::Ctrl('p')), Action::Render);
        assert_eq!(ui.selected(), expected);
    }
}

#[test]
fn selection_stays_within_the_window() {
    let mut ui = many(25);
    assert_eq!(ui.matching().len(), 25);
    for _ in 0..30 {
        ui.handle(Key::Ctrl('n'));
        assert!(ui.selected() < WINDOW_SIZE);
    }
    assert_eq!(ui.selected(), 9);
}

#[test]
fn selection_stays_zero_without_matches() {
    let mut ui = Interface::with_choices(vec![], 80);
    ui.handle(Key::Ctrl('n'));
    assert_eq!(ui.selected(), 0);
    ui.handle(Key::Ctrl('p'));
    assert_eq!(ui.selected(), 0);
}

#[test]
fn selection_is_clamped_not_reset_when_the_list_shrinks() {
    let mut ui = fruit();
    ui.handle(Key::Ctrl('n'));
    ui.handle(Key::Ctrl('n'));
    assert_eq!(ui.selected(), 2);
    type_text(&mut ui, "ap");
    assert_eq!(ui.matching().len(), 2);
    assert_eq!(ui.selected(), 1);
    type_text(&mut ui, "x");
    assert_eq!(ui.matching().len(), 0);
    assert_eq!(ui.selected(), 0);
}

#[test]
fn selection_is_kept_when_it_still_fits() {
    let mut ui = fruit();
    ui.handle(Key::Ctrl('n'));
    type_text(&mut ui, "a");
    assert_eq!(ui.matching().len(), 3);
    assert_eq!(ui.selected(), 1);
}

#[test]
fn selection_is_in_range_after_every_key() {
    let mut ui = many(12);
    let keys = [
        Key::Ctrl('n'), Key::Ctrl('n'), Key::Char('1'), Key::Ctrl('n'), Key::Ctrl('n'),
        Key::Ctrl('n'), Key::Char('1'), Key::Ctrl('p'), Key::Backspace, Key::Ctrl('n'),
        Key::Char('z'), Key::Ctrl('n'), Key::Ctrl('h'), Key::Backspace, Key::Backspace,
        Key::Other, Key::Ctrl('x'), Key::Ctrl('p'),
    ];
    for key in keys {
        ui.handle(key);
        let rows = ui.matching().len().min(WINDOW_SIZE);
        if rows == 0 {
            assert_eq!(ui.selected(), 0);
        } else {
            assert!(ui.selected() < rows);
        }
    }
}

#[test]
fn clamp_keeps_a_selection_that_points_at_a_row() {
    assert_eq!(clamp_selected(0, 3), 0);
    assert_eq!(clamp_selected(2, 3), 2);
    assert_eq!(clamp_selected(9, 10), 9);
    assert_eq!(clamp_selected(9, 25), 9);
}

#[test]
fn clamp_brings_a_selection_back_to_the_last_row() {
    assert_eq!(clamp_selected(3, 3), 2);
    assert_eq!(clamp_selected(7, 1), 0);
    assert_eq!(clamp_selected(10, 25), 9);
    assert_eq!(clamp_selected(usize::MAX, 11), 9);
}

#[test]
fn clamp_without_rows_is_zero() {
    assert_eq!(clamp_selected(0, 0), 0);
    assert_eq!(clamp_selected(4, 0), 0);
}

#[test]
fn visible_rows_are_capped_at_the_window() {
    assert_eq!(visible_rows(0), 0);
    assert_eq!(visible_rows(9), 9);
    assert_eq!(visible_rows(10), 10);
    assert_eq!(visible_rows(11), 10);
    assert_eq!(visible_rows(usize::MAX), 10);
}

#[test]
fn other_keys_are_ignored() {
    let mut ui = fruit();
    type_text(&mut ui, "a");
    ui.handle(Key::Ctrl('n'));
    let before = (ui.search().to_string(), ui.selected(), ui.matching().clone());
    assert_eq!(ui.handle(Key::Other), Action::Ignore);
    assert_eq!(ui.handle(Key::Ctrl('x')), Action::Ignore);
    assert_eq!(ui.handle(Key::Ctrl('u')), Action::Ignore);
    assert_eq!((ui.search().to_string(), ui.selected(), ui.matching().clone()), before);
}

#[test]
fn tab_is_typed_into_the_query() {
    let mut ui = fruit();
    assert_eq!(ui.handle(Key::Char('\t')), Action::Render);
    assert_eq!(ui.search(), "\t");
}

#[test]
fn first_frame() {
    let ui = fruit();
    assert_eq!(
        ui.render(),
        "\x1b[1G\x1b[J> \r\n\x1b[7mapple\x1b[27m\r\napricot\r\nbanana\x1b[3A\x1b[3G"
    );
}

#[test]
fn frame_with_a_query_and_a_moved_selection() {
    let mut ui = Interface::with_choices(strings(&["banana", "cherry", "blueberry"]), 80);
    type_text(&mut ui, "b");
    ui.handle(Key::Ctrl('n'));
    let list = shown(&ui);
    assert_eq!(list.len(), 2);
    let expected = format!(
        "\x1b[1G\x1b[J> b\r\n{}\r\n\x1b[7m{}\x1b[27m\x1b[2A\x1b[4G",
        list[0], list[1]
    );
    assert_eq!(ui.render(), expected);
}

#[test]
fn frame_without_matches_is_the_prompt_alone() {
    let mut ui = fruit();
    type_text(&mut ui, "zz");
    assert_eq!(ui.render(), "\x1b[1G\x1b[J> zz");
    let empty = Interface::with_choices(vec![], 80);
    assert_eq!(empty.render(), "\x1b[1G\x1b[J> ");
}

#[test]
fn frame_cuts_rows_to_the_width() {
    let ui = Interface::with_choices(strings(&["apple", "fig", "öäßéè"]), 3);
    assert_eq!(ui.width(), 3);
    assert_eq!(
        ui.render(),
        "\x1b[1G\x1b[J> \r\n\x1b[7mapp\x1b[27m\r\nfig\r\nöäß\x1b[3A\x1b[3G"
    );
}

#[test]
fn an_empty_candidate_is_a_blank_row() {
    let ui = Interface::with_choices(strings(&["", "pear"]), 80);
    assert_eq!(ui.render(), "\x1b[1G\x1b[J> \r\n\x1b[7m\x1b[27m\r\npear\x1b[2A\x1b[3G");
}

#[test]
fn frame_shows_at_most_ten_rows() {
    assert_eq!(WINDOW_SIZE, 10);
    let ui = many(25);
    let mut rows = String::new();
    assert_eq!(ui.render_choices(&mut rows), 10);
    assert_eq!(rows.matches("\r\n").count(), 10);
    assert_eq!(rows.matches("\x1b[7m").count(), 1);
    let frame = ui.render();
    assert_eq!(frame.matches("\r\n").count(), 10);
    assert!(frame.contains("item9"));
    assert!(!frame.contains("item10"));
    assert!(frame.ends_with("\x1b[10A\x1b[3G"));
}

#[test]
fn rows_are_appended_to_the_buffer() {
    let ui = Interface::with_choices(strings(&["a", "b"]), 80);
    let mut out = String::from("head");
    assert_eq!(ui.render_choices(&mut out), 2);
    assert_eq!(out, "head\r\n\x1b[7ma\x1b[27m\r\nb");
    let none = Interface::with_choices(vec![], 80);
    let mut untouched = String::from("head");
    assert_eq!(none.render_choices(&mut untouched), 0);
    assert_eq!(untouched, "head");
}

#[test]
fn cursor_column_follows_the_query() {
    let mut ui = fruit();
    type_text(&mut ui, "an");
    assert!(ui.render().ends_with("\x1b[1A\x1b[5G"));
    let mut wide = Interface::with_choices(strings(&["öl"]), 80);
    type_text(&mut wide, "ö");
    assert!(wide.render().ends_with("\x1b[1A\x1b[4G"));
}

#[test]
fn clear_frame() {
    let ui = fruit();
    assert_eq!(ui.clear(), "\x1b[1G\x1b[J");
}

#[test]
fn errors_from_their_causes() {
    let io = std::io::Error::new(std::io::ErrorKind::Other, "closed");
    assert!(matches!(Error::from(io), Error::Write(_)));
    assert!(matches!(
        Error::from(chooser::terminal::Error::TcSetAttr),
        Error::Reset(chooser::terminal::Error::TcSetAttr)
    ));
    assert!(matches!(
        Error::from(chooser::terminal::Error::TcGetAttr),
        Error::Reset(chooser::terminal::Error::TcGetAttr)
    ));
}
