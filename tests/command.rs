use ghostsweeper::command::{parse_action, Action};

#[test]
fn parses_open_and_flag() {
    assert_eq!(parse_action(b"open 3 4"), Some(Action::Open(2, 3)));
    assert_eq!(parse_action(b"FLAG 1 1"), Some(Action::Flag(0, 0)));
    assert_eq!(parse_action(b"Open   10\t5 extra"), Some(Action::Open(9, 4)));
    assert_eq!(parse_action(b"open +2 3"), Some(Action::Open(1, 2)));
    assert_eq!(parse_action(b"opener 2 2"), Some(Action::Open(1, 1)));
    assert_eq!(parse_action(b"open 2147483647 1"), Some(Action::Open(2147483646, 0)));
}

#[test]
fn parses_quit() {
    assert_eq!(parse_action(b"quit"), Some(Action::Quit));
    assert_eq!(parse_action(b"QUIT now"), Some(Action::Quit));
}

#[test]
fn rejects_malformed_moves() {
    assert_eq!(parse_action(b""), None);
    assert_eq!(parse_action(b"hello"), None);
    assert_eq!(parse_action(b"open 1"), None);
    assert_eq!(parse_action(b"open x 2"), None);
    assert_eq!(parse_action(b"open 0 1"), None);
    assert_eq!(parse_action(b"open -1 1"), None);
    assert_eq!(parse_action(b"flag 2147483648 1"), None);
    assert_eq!(parse_action(b"flag 3 + "), None);
    assert_eq!(parse_action(b"qui"), None);
}
