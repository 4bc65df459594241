use memfs::get_leading_entry;
use memfs::get_remaining;

#[test]
fn leading_entry_of_absolute_path() {
    assert_eq!(get_leading_entry("/a/b"), "a");
    assert_eq!(get_leading_entry("/a.txt"), "a.txt");
    assert_eq!(get_leading_entry("/subdir/c.txt"), "subdir");
}

#[test]
fn leading_entry_without_leading_slash() {
    assert_eq!(get_leading_entry("a/b"), "a");
    assert_eq!(get_leading_entry("a"), "a");
}

#[test]
fn leading_entry_edge_cases() {
    assert_eq!(get_leading_entry(""), "");
    assert_eq!(get_leading_entry("/"), "");
    assert_eq!(get_leading_entry("//x"), "");
}

#[test]
fn remaining_of_absolute_path() {
    assert_eq!(get_remaining("/a/b"), "/b");
    assert_eq!(get_remaining("/subdir/c.txt"), "/c.txt");
    assert_eq!(get_remaining("/a/b/c"), "/b/c");
}

#[test]
fn remaining_when_nothing_is_left() {
    assert_eq!(get_remaining("/a.txt"), "");
    assert_eq!(get_remaining("a"), "");
    assert_eq!(get_remaining(""), "");
    assert_eq!(get_remaining("/"), "");
}

#[test]
fn remaining_keeps_empty_segments() {
    assert_eq!(get_remaining("//x"), "/x");
    assert_eq!(get_remaining("/a//b"), "//b");
}

#[test]
fn repeated_remaining_consumes_the_path() {
    let mut path = String::from("/a/b/c");
    let mut steps = 0;
    while !path.is_empty() {
        path = get_remaining(&path).to_string();
        steps += 1;
    }
    assert_eq!(steps, 3);
}
