use jieba_rs::{KeywordExtractConfig, LoadDefault, TextRank};

#[test]
fn default_config() {
    let config = KeywordExtractConfig::new();
    assert!(config.stop_words().contains(&String::from("the")));
    assert!(!config.stop_words().contains(&String::from("FakeWord")));
    assert!(!config.use_hmm());
    assert_eq!(2, config.min_keyword_length());
    let built_default = KeywordExtractConfig::builder().build();
    assert_eq!(config, built_default);
}

#[test]
fn builder_changes_settings() {
    let changed = KeywordExtractConfig::builder()
        .add_stop_word("FakeWord".to_string())
        .remove_stop_word("the")
        .use_hmm(true)
        .min_keyword_length(10)
        .build();
    assert!(!changed.stop_words().contains(&String::from("the")));
    assert!(changed.stop_words().contains(&String::from("FakeWord")));
    assert!(changed.stop_words().contains(&String::from("of")));
    assert!(changed.use_hmm());
    assert_eq!(10, changed.min_keyword_length());

    let replaced = KeywordExtractConfig::builder()
        .add_stop_word("FakeWord".to_string())
        .set_stop_words(vec![String::from("boo")])
        .remove_stop_word("the")
        .build();
    assert_eq!(replaced.stop_words(), &vec![String::from("boo")]);
}

#[test]
fn filter_lowers_case_before_looking_up_stop_words() {
    let config = KeywordExtractConfig::new();
    assert!(!config.filter("THE"));
    assert!(!config.filter("x"));
    assert!(config.filter("北京"));
    assert!(config.filter_lowered("THE", &String::from("thee")));
}

#[test]
fn text_rank_keeps_its_settings() {
    let t = TextRank::new(5, KeywordExtractConfig::new());
    assert_eq!(t.span(), 5);
    assert_eq!(t.config().min_keyword_length(), 2);
}

#[test]
fn load_default_hands_out_entries() {
    let mut l = LoadDefault::new("  中 3 n\n出\t5 v ");
    let mut got = Vec::new();
    while let Some(e) = l.next() {
        got.push(e);
    }
    assert_eq!(got, vec![(String::from("中"), 3, String::from("n")), (String::from("出"), 5, String::from("v"))]);
    assert_eq!(l.next(), None);
}
