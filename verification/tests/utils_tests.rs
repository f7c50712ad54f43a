use codexfs::utils::{is_dot_or_dotdot, round_down, round_up};

#[test]
fn check_round_up() {
    assert_eq!(round_up(8, 8), 8);
    assert_eq!(round_up(5, 4), 8);
    assert_eq!(round_up(7, 8), 8);
}

#[test]
fn check_round_down() {
    assert_eq!(round_down(8, 8), 8);
    assert_eq!(round_down(5, 4), 4);
    assert_eq!(round_down(7, 8), 0);
}

#[test]
fn check_is_dot_or_dotdot() {
    assert!(is_dot_or_dotdot("."));
    assert!(is_dot_or_dotdot(".."));
    assert!(!is_dot_or_dotdot("..."));
    assert!(!is_dot_or_dotdot("not dot"));
}
