use radyx::longest_common_prefix;

#[test]
fn lcp_exact_lengths() {
    assert_eq!(4, longest_common_prefix("/Pasta", "/Pasanger"));
    assert_eq!(5, longest_common_prefix("/Mainframe", "/Maintenance"));
    assert_eq!(1, longest_common_prefix("/s", "/f"));
    assert_eq!(11, longest_common_prefix("/home/mount", "/home/mountain"));
    assert_eq!(11, longest_common_prefix("/home/mountain", "/home/mount"));
}

#[test]
fn lcp_of_a_string_with_itself_is_its_length() {
    assert_eq!(0, longest_common_prefix("", ""));
    assert_eq!(1, longest_common_prefix("/", "/"));
    assert_eq!(14, longest_common_prefix("/home/mountain", "/home/mountain"));
}

#[test]
fn lcp_is_zero_without_a_shared_first_character() {
    assert_eq!(0, longest_common_prefix("home", "/home"));
    assert_eq!(0, longest_common_prefix("/home", "home"));
    assert_eq!(0, longest_common_prefix("", "/home"));
    assert_eq!(0, longest_common_prefix("/home", ""));
    assert_eq!(0, longest_common_prefix("Home", "home"));
}

#[test]
fn lcp_counts_characters_not_bytes() {
    assert_eq!(3, longest_common_prefix("h\u{e9}llo", "h\u{e9}las"));
    assert_eq!(2, longest_common_prefix("\u{65e5}\u{672c}\u{8a9e}", "\u{65e5}\u{672c}\u{4eba}"));
    // U+00E9 and U+00E8 share their first byte and differ in the second.
    assert_eq!(1, longest_common_prefix("/\u{e9}", "/\u{e8}"));
    assert_eq!(0, longest_common_prefix("\u{e9}", "\u{e8}"));
}

#[test]
fn lcp_is_symmetric_on_many_pairs() {
    let words = ["", "/", "/a", "/ab", "/abc", "/abd", "/b", "x", "/\u{e9}", "/\u{e8}t"];
    for a in words.iter() {
        for b in words.iter() {
            assert_eq!(longest_common_prefix(a, b), longest_common_prefix(b, a));
        }
    }
}
