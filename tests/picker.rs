use histpick::app::{App, InputMode, Key, Outcome};
use histpick::command::extract_command;
use histpick::decode::{
    decode_history, decode_latin1, decode_text, split_lines, unmetafy, DecodeError,
    DecodeStrategy,
};
use histpick::filter::{filter_history, matches_query};
use histpick::text::{contains_chars, split_chars};

fn lines(v: &[&str]) -> Vec<String> {
    v.iter().map(|s| s.to_string()).collect()
}

fn sample_history() -> Vec<String> {
    lines(&["ls -la", "cd /tmp;ls -la", "echo hi", "git commit -m fix;"])
}

#[test]
fn empty_query_lists_recent_first_deduped() {
    // The last line ends in `;`, so its command is empty; it is listed.
    let r = filter_history(&sample_history(), "");
    assert_eq!(r, lines(&["", "echo hi", "ls -la"]));
}

#[test]
fn query_git_matches_only_the_git_line() {
    // The git line's command (after its trailing `;`) is empty.
    let r = filter_history(&sample_history(), "git");
    assert_eq!(r, lines(&[""]));
    let h = lines(&["ls", ": 1700000000:0;git commit -m fix"]);
    assert_eq!(filter_history(&h, "git"), lines(&["git commit -m fix"]));
}

#[test]
fn empty_query_skips_empty_lines() {
    let h = lines(&["a", "", "b", "a", ""]);
    assert_eq!(filter_history(&h, ""), lines(&["a", "b"]));
}

#[test]
fn and_query_needs_every_term() {
    let h = lines(&["cargo build", "cargo test --release", "make test", "test cargo"]);
    assert_eq!(
        filter_history(&h, "cargo&test"),
        lines(&["test cargo", "cargo test --release"])
    );
    assert_eq!(filter_history(&h, "test&cargo"), filter_history(&h, "cargo&test"));
    assert!(matches_query("cargo test", "test&cargo"));
    assert!(!matches_query("cargo build", "test&cargo"));
    assert!(matches_query("anything", ""));
    assert!(matches_query("x", "x&"));
}

#[test]
fn matching_looks_at_the_raw_line() {
    // The metadata before `;` is searched too, but the command is listed.
    let h = lines(&[": 1700000000:0;ls"]);
    assert_eq!(filter_history(&h, "1700"), lines(&["ls"]));
    assert_eq!(filter_history(&h, "LS"), Vec::<String>::new());
}

#[test]
fn command_is_after_last_separator() {
    assert_eq!(extract_command("a;b;c"), "c");
    assert_eq!(extract_command("plain"), "plain");
    assert_eq!(extract_command("x;"), "");
    assert_eq!(extract_command(""), "");
}

#[test]
fn unmetafy_restores_quoted_bytes() {
    assert_eq!(unmetafy(vec![0x83, 0x61]), vec![0x41]);
    assert_eq!(unmetafy(vec![0x83, 0x41]), vec![0x61]);
    // zsh stores the two bytes of U+0103 (C4 83) as C4 83 A3.
    assert_eq!(unmetafy(vec![0xC4, 0x83, 0xA3]), vec![0xC4, 0x83]);
    assert_eq!(unmetafy(b"plain".to_vec()), b"plain".to_vec());
    assert_eq!(unmetafy(vec![0x61, 0x83]), vec![0x61]);
    assert_eq!(unmetafy(vec![]), Vec::<u8>::new());
}

#[test]
fn meta_strategy_decodes_quoted_text() {
    let bytes = vec![b'e', b'c', b'h', b'o', b' ', 0xC4, 0x83, 0xA3, b'\n', b'l', b's', b'\n'];
    let r = decode_history(bytes, DecodeStrategy::MetaUnescape).unwrap();
    assert_eq!(r, lines(&["echo \u{103}", "ls"]));
}

#[test]
fn meta_strategy_replaces_invalid_utf8() {
    let r = decode_text(vec![b'a', 0xFF, b'b'], DecodeStrategy::MetaUnescape).unwrap();
    assert_eq!(r, "a\u{FFFD}b");
}

#[test]
fn single_byte_strategy_reads_latin1() {
    assert_eq!(decode_latin1(&vec![b'c', 0xE9, 0xFF]), "c\u{E9}\u{FF}");
    let r = decode_history(vec![0xE9, b'\n', b'x'], DecodeStrategy::SingleByte).unwrap();
    assert_eq!(r, lines(&["\u{E9}", "x"]));
}

#[test]
fn utf8_strategy_rejects_invalid_bytes() {
    assert_eq!(
        decode_history(vec![b'a', 0xFF], DecodeStrategy::Utf8),
        Err(DecodeError::InvalidUtf8)
    );
    let r = decode_history("\u{103}x\ny".as_bytes().to_vec(), DecodeStrategy::Utf8).unwrap();
    assert_eq!(r, lines(&["\u{103}x", "y"]));
}

#[test]
fn lines_split_on_line_feeds() {
    assert_eq!(split_lines("a\nb\r\nc"), lines(&["a", "b", "c"]));
    assert_eq!(split_lines("a\n"), lines(&["a"]));
    assert_eq!(split_lines("\n"), lines(&[""]));
    assert_eq!(split_lines(""), Vec::<String>::new());
    assert_eq!(split_lines("a\n\nb"), lines(&["a", "", "b"]));
}

#[test]
fn text_helpers() {
    let s: Vec<char> = "hello".chars().collect();
    assert!(contains_chars(&s, &"ell".chars().collect()));
    assert!(!contains_chars(&s, &"elo".chars().collect()));
    assert!(contains_chars(&s, &Vec::new()));
    let parts = split_chars(&"a&&b".chars().collect(), '&');
    assert_eq!(parts, vec![vec!['a'], vec![], vec!['b']]);
}

#[test]
fn down_cycles_back_to_start() {
    let mut app = App::new();
    app.selected = 2;
    for _ in 0..5 {
        app.move_down(5);
    }
    assert_eq!(app.selected, 2);
}

#[test]
fn navigation_wraps_at_both_ends() {
    let mut app = App::new();
    app.move_up(4);
    assert_eq!(app.selected, 3);
    app.move_down(4);
    assert_eq!(app.selected, 0);
    app.move_down(4);
    assert_eq!(app.selected, 1);
    app.move_up(4);
    assert_eq!(app.selected, 0);
}

#[test]
fn navigation_on_empty_list_is_a_no_op() {
    let mut app = App::new();
    let empty: Vec<String> = Vec::new();
    assert_eq!(app.handle_key(Key::Down, &empty), Outcome::Continue);
    assert_eq!(app.handle_key(Key::Up, &empty), Outcome::Continue);
    assert_eq!(app.selected, 0);
}

#[test]
fn commit_outputs_the_selected_entry() {
    let results = lines(&["git status", "ls", "make"]);
    let mut app = App::new();
    app.handle_key(Key::Down, &results);
    assert_eq!(app.handle_key(Key::Enter, &results), Outcome::Commit);
    assert_eq!(app.selected_cmd, "ls");
}

#[test]
fn commit_on_empty_list_outputs_nothing() {
    let mut app = App::new();
    let empty: Vec<String> = Vec::new();
    assert_eq!(app.handle_key(Key::Enter, &empty), Outcome::Commit);
    assert_eq!(app.selected_cmd, "");
}

#[test]
fn quit_outputs_nothing() {
    let mut app = App::default();
    let results = lines(&["ls"]);
    assert_eq!(app.handle_key(Key::Char('q'), &results), Outcome::Quit);
    assert_eq!(app.selected_cmd, "");
}

#[test]
fn editing_changes_query_and_resets_selection() {
    let history = lines(&["make", "cargo test", "cargo build"]);
    let mut app = App::new();
    let results = app.results(&history);
    assert_eq!(results, lines(&["cargo build", "cargo test", "make"]));
    app.handle_key(Key::Down, &results);
    assert_eq!(app.selected, 1);
    assert_eq!(app.handle_key(Key::Char('e'), &results), Outcome::Continue);
    assert_eq!(app.input_mode, InputMode::Editing);
    app.handle_key(Key::Char('t'), &results);
    app.handle_key(Key::Char('x'), &results);
    assert_eq!(app.input, "tx");
    assert_eq!(app.query, "tx");
    assert_eq!(app.selected, 0);
    app.handle_key(Key::Backspace, &results);
    assert_eq!(app.query, "t");
    // 'q' and arrows are text or ignored while editing.
    assert_eq!(app.handle_key(Key::Char('q'), &results), Outcome::Continue);
    assert_eq!(app.query, "tq");
    app.handle_key(Key::Backspace, &results);
    app.handle_key(Key::Enter, &results);
    assert_eq!(app.input_mode, InputMode::Normal);
    assert_eq!(app.query, "t");
    assert_eq!(app.input, "");
    assert_eq!(app.results(&history), lines(&["cargo test"]));
}

#[test]
fn backspace_on_empty_input_keeps_it_empty() {
    let mut app = App::new();
    let empty: Vec<String> = Vec::new();
    app.handle_key(Key::Char('e'), &empty);
    app.handle_key(Key::Backspace, &empty);
    assert_eq!(app.input, "");
    assert_eq!(app.query, "");
}

#[test]
fn meta_strategy_reads_unquoted_bytes_as_utf8() {
    assert_eq!(decode_text(vec![0x83, 0x41], DecodeStrategy::MetaUnescape).unwrap(), "a");
    assert_eq!(
        decode_text(vec![0xC4, 0x83, 0xA3], DecodeStrategy::MetaUnescape).unwrap(),
        "\u{103}"
    );
    assert_eq!(
        decode_text(b"git status".to_vec(), DecodeStrategy::MetaUnescape).unwrap(),
        "git status"
    );
}

#[test]
fn meta_strategy_round_trips_zsh_quoting() {
    // zsh quotes 0x00 and 0x83..=0xA2.
    let original = "caf\u{E9} \u{103}\u{2014}".as_bytes().to_vec();
    let mut quoted = Vec::new();
    for b in &original {
        if *b == 0 || (0x83..=0xA2).contains(b) {
            quoted.push(0x83);
            quoted.push(*b ^ 32);
        } else {
            quoted.push(*b);
        }
    }
    let sentinels = quoted.iter().filter(|b| **b == 0x83).count();
    let text = decode_text(quoted.clone(), DecodeStrategy::MetaUnescape).unwrap();
    assert_eq!(text.as_bytes(), &original[..]);
    assert_eq!(text.len(), quoted.len() - sentinels);
}

#[test]
fn meta_strategy_splits_over_concatenation() {
    let b1 = vec![b'x', 0x83, 0x41];
    let b2 = vec![0xC4, 0x83, 0xA3, b'!'];
    let mut both = b1.clone();
    both.extend_from_slice(&b2);
    let whole = decode_text(both, DecodeStrategy::MetaUnescape).unwrap();
    let parts = decode_text(b1, DecodeStrategy::MetaUnescape).unwrap()
        + &decode_text(b2, DecodeStrategy::MetaUnescape).unwrap();
    assert_eq!(whole, parts);
    assert_eq!(whole, "xa\u{103}!");
}

#[test]
fn strategy_names() {
    assert_eq!(DecodeStrategy::from_name("meta"), Some(DecodeStrategy::MetaUnescape));
    assert_eq!(DecodeStrategy::from_name("latin1"), Some(DecodeStrategy::SingleByte));
    assert_eq!(DecodeStrategy::from_name("utf8"), Some(DecodeStrategy::Utf8));
    assert_eq!(DecodeStrategy::from_name("UTF8"), None);
    assert_eq!(DecodeStrategy::from_name(""), None);
}
