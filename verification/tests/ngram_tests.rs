use epg_engine::ngram::{char_windows, Ngram};

#[test]
fn ngram() {
    let ngram = Ngram::new(3);
    assert_eq!(ngram.pad_str("Cats"), "  Cats  ".to_owned());
    assert_eq!(ngram.unpad_str(&ngram.pad_str("Dogs")), "Dogs");
}

#[test]
fn windows() {
    assert_eq!(char_windows("abcdefg", 2), vec!["ab", "bc", "cd", "de", "ef", "fg"]);
    assert_eq!(char_windows("abcdefg", 4), vec!["abcd", "bcde", "cdef", "defg"]);
    assert_eq!(char_windows("abc", 1), vec!["a", "b", "c"]);
    assert!(char_windows("abc", 4).is_empty());
}
