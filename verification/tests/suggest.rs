use webgraph::suggest::highlight;

#[test]
fn suffix_highlight() {
    assert_eq!(&highlight("", "test".to_string()), "<b>test</b>");
    assert_eq!(&highlight("t", "test".to_string()), "t<b>est</b>");
    assert_eq!(&highlight("te", "test".to_string()), "te<b>st</b>");
    assert_eq!(&highlight("tes", "test".to_string()), "tes<b>t</b>");
    assert_eq!(&highlight("test", "test".to_string()), "test<b></b>");
}

#[test]
fn highlight_marks_from_the_first_difference() {
    assert_eq!(&highlight("tax", "test".to_string()), "t<b>est</b>");
    assert_eq!(&highlight("x", "test".to_string()), "<b>test</b>");
}

#[test]
fn highlight_of_a_longer_query_marks_nothing() {
    assert_eq!(&highlight("testing", "test".to_string()), "test<b></b>");
}

#[test]
fn highlight_counts_the_query_in_bytes() {
    // the query has two characters and three bytes
    assert_eq!(&highlight("\u{e9}t", "\u{e9}tude".to_string()), "\u{e9}tu<b>de</b>");
}
