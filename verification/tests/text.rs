use mdbook_xref::text::{find_char, push_decimal, trim, trim_start};

#[test]
fn trim_removes_white_space_at_both_ends() {
    assert_eq!(trim("  a b \n"), "a b");
    assert_eq!(trim("\t\n "), "");
    assert_eq!(trim("plain"), "plain");
}

#[test]
fn trim_start_keeps_the_end() {
    assert_eq!(trim_start("  rest  "), "rest  ");
}

#[test]
fn push_decimal_appends_digits() {
    let mut s = String::from("Figure ");
    push_decimal(&mut s, 0);
    assert_eq!(s, "Figure 0");
    let mut t = String::new();
    push_decimal(&mut t, 1207);
    assert_eq!(t, "1207");
}

#[test]
fn find_char_gives_first_index_or_length() {
    assert_eq!(find_char("a b c", ' '), 1);
    assert_eq!(find_char("abc", ' '), 3);
    assert_eq!(find_char("äx y", ' '), 2);
}
