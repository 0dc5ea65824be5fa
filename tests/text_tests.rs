use uctp::text::truncate;

#[test]
fn short_text_is_kept() {
    assert_eq!(truncate("C309", 22), "C309");
    assert_eq!(truncate("exactly", 7), "exactly");
    assert_eq!(truncate("", 0), "");
}

#[test]
fn long_text_is_cut_with_marker() {
    assert_eq!(truncate("Operating Systems", 10), "Operati...");
    assert_eq!(truncate("abcd", 3), "...");
}

#[test]
fn cut_counts_characters_not_bytes() {
    assert_eq!(truncate("ăîșțâăîșț", 6), "ăîș...");
}
