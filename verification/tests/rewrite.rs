use protohackers::rewrite::do_the_boguscoin_rewrite;

#[test]
fn test_bogus_rewrite() {
    let msg = "Hi alice, please send payment to 7iKDZEwPZSqIvDnHvVN2r0hUWXD5rHX";
    let rewritten = do_the_boguscoin_rewrite(&msg);

    assert_eq!(
        rewritten,
        "Hi alice, please send payment to 7YWHMfk9JZe0LM0g1ZauHuiSxhI"
    );

    let msg = "[ProtoMike718] Send refunds to 7g2gQ9IyDwhWBIV4F0lmmNYUYL6mW please.";
    let rewritten = do_the_boguscoin_rewrite(msg);

    assert_eq!(
        rewritten,
        "[ProtoMike718] Send refunds to 7YWHMfk9JZe0LM0g1ZauHuiSxhI please."
    );
}

#[test]
fn rewrite_keeps_short_and_long_words() {
    // 25 characters: one too short to be an address.
    let short = "7123456789012345678901234";
    assert_eq!(short.len(), 25);
    assert_eq!(do_the_boguscoin_rewrite(short), short);
    // 36 characters: one too long.
    let long = "712345678901234567890123456789012345";
    assert_eq!(long.len(), 36);
    assert_eq!(do_the_boguscoin_rewrite(long), long);
}

#[test]
fn rewrite_boundary_lengths_match() {
    // Exactly 26 and exactly 35 characters are addresses.
    let a26 = "71234567890123456789012345";
    assert_eq!(a26.len(), 26);
    assert_eq!(
        do_the_boguscoin_rewrite(a26),
        "7YWHMfk9JZe0LM0g1ZauHuiSxhI"
    );
    let a35 = "71234567890123456789012345678901234";
    assert_eq!(a35.len(), 35);
    assert_eq!(
        do_the_boguscoin_rewrite(a35),
        "7YWHMfk9JZe0LM0g1ZauHuiSxhI"
    );
}

#[test]
fn rewrite_needs_leading_seven_and_alnum() {
    let not_seven = "81234567890123456789012345";
    assert_eq!(do_the_boguscoin_rewrite(not_seven), not_seven);
    let with_dash = "7123456789012345678901234-";
    assert_eq!(do_the_boguscoin_rewrite(with_dash), with_dash);
}

#[test]
fn rewrite_measures_words_in_bytes_not_characters() {
    // 25 characters but 26 bytes: the two-byte letter tips it into range.
    let w = "7\u{e9}23456789012345678901234";
    assert_eq!(w.chars().count(), 25);
    assert_eq!(w.len(), 26);
    assert_eq!(do_the_boguscoin_rewrite(w), "7YWHMfk9JZe0LM0g1ZauHuiSxhI");
    // 35 characters but 36 bytes: one too long.
    let w = "7\u{e9}234567890123456789012345678901234";
    assert_eq!(w.chars().count(), 35);
    assert_eq!(w.len(), 36);
    assert_eq!(do_the_boguscoin_rewrite(w), w);
}

#[test]
fn rewrite_accepts_any_alphabetic_script_but_not_symbols() {
    // A non-ASCII letter is alphanumeric: the word is an address.
    let w = "7\u{e9}2345678901234567890123456";
    assert_eq!(do_the_boguscoin_rewrite(w), "7YWHMfk9JZe0LM0g1ZauHuiSxhI");
    // A check-mark symbol is not alphanumeric: the word is kept.
    let w = "7\u{2713}345678901234567890123456";
    assert_eq!(do_the_boguscoin_rewrite(w), w);
}

#[test]
fn rewrite_collapses_whitespace_and_trailing_newline() {
    assert_eq!(do_the_boguscoin_rewrite("a  b\tc\n"), "a b c");
    assert_eq!(do_the_boguscoin_rewrite(""), "");
    assert_eq!(do_the_boguscoin_rewrite("   \n"), "");
}
