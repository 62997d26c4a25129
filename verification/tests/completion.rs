use vpixsh::completion::do_complete;
use vpixsh::completion::find_completion_base;

#[test]
fn test_find_completion_base() {
    assert_eq!(
        find_completion_base("cd sr", 5),
        Some(("sr".to_string(), 3))
    );
    assert_eq!(
        find_completion_base("cd sr", 4),
        Some(("sr".to_string(), 3))
    );
    assert_eq!(
        find_completion_base("cd sr", 3),
        Some(("sr".to_string(), 3))
    );
    assert_eq!(
        find_completion_base("cd sr", 2),
        Some(("cd".to_string(), 0))
    );
    assert_eq!(
        find_completion_base("cd sr", 1),
        Some(("cd".to_string(), 0))
    );
    assert_eq!(
        find_completion_base("cd sr", 0),
        Some(("cd".to_string(), 0))
    );

    assert_eq!(find_completion_base("cd  sr", 3), None);

    assert_eq!(find_completion_base("", 0), None);
    assert_eq!(find_completion_base("  ", 2), None);
    assert_eq!(find_completion_base("  ", 1), None);
    assert_eq!(find_completion_base("  ", 0), None);
}

#[test]
fn test_find_completion_base_unicode() {
    // Offsets count characters, not bytes.
    assert_eq!(
        find_completion_base("ödla hår", 6),
        Some(("hår".to_string(), 5))
    );
    assert_eq!(
        find_completion_base("ödla hår", 2),
        Some(("ödla".to_string(), 0))
    );
}

#[test]
fn test_find_completion_base_bad_line() {
    // A line that does not tokenize has no completion base.
    assert_eq!(find_completion_base(r"apa\", 4), None);
}

#[test]
fn test_do_complete_is_trivial() {
    assert_eq!(do_complete("/tmp", "sr"), Vec::<String>::new());
}
