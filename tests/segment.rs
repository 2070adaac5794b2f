use jieba_rs::{Error, HmmModel, Jieba, State, Tag, Token, TokenizeMode};

const W: i64 = -0x1000_0000_0000_0000;

fn toy_dict() -> Jieba {
    let dict = "网球 1000\n网球拍 100\n球拍 100\n拍卖 100\n拍卖会 1000\n";
    Jieba::with_dict(dict).unwrap()
}

fn sentence_dict() -> Jieba {
    let dict = "我们 1000 r\n一个 1000 m\n叛徒 100 n\n中 500 f\n出 500 v\n了 1000 ul\n";
    Jieba::with_dict(dict).unwrap()
}

fn bridge_dict() -> Jieba {
    let dict = "南京 100\n京市 10\n南京市 1000 ns\n长江 100\n大桥 100\n长江大桥 1000 ns\n";
    Jieba::with_dict(dict).unwrap()
}

/// A model under which 中 begins a word, 出 ends one and 了 stands alone.
fn toy_model() -> HmmModel {
    let initial = [0, W, W, 0];
    // rows and columns in the order Begin, End, Middle, Single
    let trans = [W, 0, 0, W, 0, W, W, 0, W, 0, 0, W, 0, W, W, 0];
    let mut m = HmmModel::new(initial, trans);
    m.set_emission(State::Begin, '中', 0);
    m.set_emission(State::End, '出', 0);
    m.set_emission(State::Single, '了', 0);
    m
}

#[test]
fn test_userdict_error() {
    let mut jieba = Jieba::empty();
    let userdict = "出了 not_a_int";
    let ret = jieba.load_dict(userdict);
    assert!(ret.is_err());
}

#[test]
fn invalid_entry_message_names_the_line() {
    let mut jieba = Jieba::empty();
    let ret = jieba.load_dict("中 3\n出了 not_a_int\n");
    match ret {
        Err(Error::InvalidDictEntry(msg)) => {
            assert_eq!(msg, "line 2 `出了 not_a_int` frequency not_a_int is not a valid integer")
        }
        _ => panic!("expected an invalid entry"),
    }
    // the line before the bad one was loaded
    assert_eq!(jieba.cut("中", false), vec!["中"]);
    assert_eq!(jieba.suggest_freq("中"), 4);
}

#[test]
fn test_cut_dag_no_hmm_against_string_with_sip() {
    let mut jieba = Jieba::empty();

    //add fake word into dictionary
    jieba.add_word("䶴䶵𦡦", Some(1000), None);
    jieba.add_word("讥䶯䶰䶱䶲䶳", Some(1000), None);

    let words = jieba.cut("讥䶯䶰䶱䶲䶳䶴䶵𦡦", false);
    assert_eq!(words, vec!["讥䶯䶰䶱䶲䶳", "䶴䶵𦡦"]);
}

#[test]
fn test_add_custom_word_with_underscrore() {
    let mut jieba = Jieba::empty();
    jieba.add_word("田-女士", Some(42), Some("n"));
    let words = jieba.cut("市民田-女士急匆匆", false);
    assert_eq!(words, vec!["市", "民", "田-女士", "急", "匆", "匆"]);
}

#[test]
fn empty_dictionary_cuts_every_character() {
    let jieba = Jieba::empty();
    assert_eq!(jieba.cut("", false), Vec::<String>::new());
    assert_eq!(jieba.cut("南京", false), vec!["南", "京"]);
    assert_eq!(jieba.cut("ab12 c", false), vec!["ab12", " ", "c"]);
}

#[test]
fn cut_without_hmm_joins_ascii_runs() {
    let jieba = toy_dict();
    let words = jieba.cut("abc网球拍卖会def", false);
    assert_eq!(words, vec!["abc", "网球", "拍卖会", "def"]);
}

#[test]
fn cut_keeps_every_character_of_the_input() {
    let jieba = toy_dict();
    let text = "abc 网球拍卖会，\r\ndef\t网球!";
    let words = jieba.cut(text, false);
    assert_eq!(words.concat(), text);
    assert_eq!(
        words,
        vec!["abc", " ", "网球", "拍卖会", "，", "\r\n", "def", "\t", "网球", "!"]
    );
    let words = jieba.cut(text, true);
    assert_eq!(words.concat(), text);
}

#[test]
fn cut_all_gives_every_word() {
    let jieba = Jieba::with_dict("网球 1000\n网球拍 100\n球 10\n球拍 100\n拍卖 100\n拍卖会 1000\n").unwrap();
    let words = jieba.cut_all("abc网球拍卖会def");
    assert_eq!(words, vec!["abc", "网球", "网球拍", "球", "球拍", "拍卖", "拍卖会", "def"]);
}

#[test]
fn cut_all_skips_a_covered_single_edge() {
    let jieba = toy_dict();
    let words = jieba.cut_all("abc网球拍卖会def");
    assert_eq!(words, vec!["abc", "网球", "网球拍", "拍卖", "拍卖会", "def"]);
}

#[test]
fn cut_all_keeps_plus_and_hash_runs_together() {
    let jieba = Jieba::empty();
    let words = jieba.cut_all("c++ 网");
    assert_eq!(words, vec!["c++", " ", "网"]);
}

#[test]
fn cut_without_hmm_splits_unknown_runs() {
    let jieba = sentence_dict();
    let words = jieba.cut("我们中出了一个叛徒", false);
    assert_eq!(words, vec!["我们", "中", "出", "了", "一个", "叛徒"]);
}

#[test]
fn cut_with_hmm_joins_by_the_model() {
    let mut jieba = sentence_dict();
    jieba.set_hmm_model(toy_model());
    let words = jieba.cut("我们中出了一个叛徒", true);
    assert_eq!(words, vec!["我们", "中出", "了", "一个", "叛徒"]);
}

#[test]
fn hmm_cut_labels_a_run() {
    let m = toy_model();
    let mut words = Vec::new();
    jieba_rs::hmm::cut(&m, "中出了", &mut words);
    assert_eq!(words, vec!["中出", "了"]);
    let labels = jieba_rs::hmm::viterbi(&m, &vec!['中', '出', '了']);
    assert_eq!(labels, vec![State::Begin, State::End, State::Single]);
    let mut words = Vec::new();
    jieba_rs::hmm::cut(&m, "ab3.14%中出", &mut words);
    assert_eq!(words, vec!["ab3.14%", "中出"]);
}

#[test]
fn added_word_changes_the_cut() {
    let mut jieba = sentence_dict();
    assert_eq!(jieba.add_word("中出", Some(10000), None), 10000);
    let words = jieba.cut("我们中出了一个叛徒", false);
    assert_eq!(words, vec!["我们", "中出", "了", "一个", "叛徒"]);
}

#[test]
fn user_dictionary_changes_the_tokens() {
    let mut jieba = sentence_dict();
    jieba.load_dict("中出 10000").unwrap();
    let tokens = jieba.tokenize("我们中出了一个叛徒", TokenizeMode::Default, false);
    assert_eq!(
        tokens,
        vec![
            Token { word: String::from("我们"), start: 0, end: 2 },
            Token { word: String::from("中出"), start: 2, end: 4 },
            Token { word: String::from("了"), start: 4, end: 5 },
            Token { word: String::from("一个"), start: 5, end: 7 },
            Token { word: String::from("叛徒"), start: 7, end: 9 },
        ]
    );
}

#[test]
fn cut_for_search_adds_sub_words_first() {
    let jieba = bridge_dict();
    let words = jieba.cut_for_search("南京市长江大桥", true);
    assert_eq!(words, vec!["南京", "京市", "南京市", "长江", "大桥", "长江大桥"]);
}

#[test]
fn tokenize_reports_character_positions() {
    let jieba = bridge_dict();
    let tokens = jieba.tokenize("南京市长江大桥", TokenizeMode::Default, false);
    assert_eq!(
        tokens,
        vec![
            Token { word: String::from("南京市"), start: 0, end: 3 },
            Token { word: String::from("长江大桥"), start: 3, end: 7 },
        ]
    );
    let tokens = jieba.tokenize("南京市长江大桥", TokenizeMode::Search, false);
    let ranges: Vec<(usize, usize)> = tokens.iter().map(|t| (t.start, t.end)).collect();
    assert_eq!(ranges, vec![(0, 2), (1, 3), (0, 3), (3, 5), (5, 7), (3, 7)]);
    assert_eq!(tokens[1].word, "京市");
}

#[test]
fn default_tokens_touch_and_match_the_text() {
    let jieba = toy_dict();
    let text = "x网球拍卖会 y";
    let tokens = jieba.tokenize(text, TokenizeMode::Default, true);
    let chars: Vec<char> = text.chars().collect();
    let mut pos = 0;
    for t in &tokens {
        assert_eq!(t.start, pos);
        let piece: String = chars[t.start..t.end].iter().collect();
        assert_eq!(t.word, piece);
        pos = t.end;
    }
    assert_eq!(pos, chars.len());
}

#[test]
fn tag_uses_the_dictionary_then_the_characters() {
    let jieba = bridge_dict();
    let tags = jieba.tag("南京市 CEO 2024 ，", false);
    assert_eq!(
        tags,
        vec![
            Tag { word: String::from("南京市"), tag: String::from("ns") },
            Tag { word: String::from(" "), tag: String::from("x") },
            Tag { word: String::from("CEO"), tag: String::from("eng") },
            Tag { word: String::from(" "), tag: String::from("x") },
            Tag { word: String::from("2024"), tag: String::from("m") },
            Tag { word: String::from(" "), tag: String::from("x") },
            Tag { word: String::from("，"), tag: String::from("x") },
        ]
    );
}

#[test]
fn suggest_freq_follows_the_current_cut() {
    let mut jieba = sentence_dict();
    // 500 * 500 / 4100 rounded down, plus one
    assert_eq!(jieba.suggest_freq("中出"), 61);
    // one word: its own frequency, plus one
    assert_eq!(jieba.suggest_freq("我们"), 1001);
    jieba.load_dict("中出 3000").unwrap();
    assert_eq!(jieba.suggest_freq("中出"), 3001);
    let f = jieba.add_word("出了", None, Some("v"));
    assert_eq!(f, 500 * 1000 / 7100 + 1);
}

#[test]
fn lower_frequency_can_be_set_again() {
    let mut jieba = Jieba::empty();
    jieba.add_word("测试", Some(2445), None);
    jieba.add_word("测试", Some(10), None);
    let words = jieba.cut("测试", false);
    assert_eq!(words, vec!["测试"]);
    assert_eq!(jieba.suggest_freq("测试"), 11);
}

#[test]
fn prefixes_of_words_are_no_words() {
    let mut jieba = Jieba::empty();
    jieba.add_word("长江大桥", Some(5), None);
    // the prefixes are held with frequency 0, so they never make a word
    assert_eq!(jieba.cut("长江", false), vec!["长", "江"]);
    assert_eq!(jieba.cut("长江大桥", false), vec!["长江大桥"]);
    assert_eq!(jieba.get_word_freq("长江", 9), 0);
    assert_eq!(jieba.get_word_freq("江", 9), 9);
    jieba.add_word("长江", Some(7), Some("ns"));
    assert_eq!(jieba.tag("长江", false), vec![Tag { word: String::from("长江"), tag: String::from("ns") }]);
}

#[test]
fn words_with_nul_and_escape_are_stored() {
    let mut jieba = Jieba::empty();
    jieba.load_dict("a\u{0}b 5 n\n\u{1}0 7\n").unwrap();
    assert_eq!(jieba.get_word_freq("a\u{0}b", 9), 5);
    assert_eq!(jieba.get_word_freq("\u{1}0", 9), 7);
    assert_eq!(jieba.get_word_freq("\u{0}", 9), 9);
    assert_eq!(jieba.get_word_freq("a\u{0}", 9), 0);
    assert_eq!(jieba.get_word_freq("\u{1}", 9), 0);
    assert_eq!(jieba.add_word("\u{0}", Some(3), None), 3);
    assert_eq!(jieba.get_word_freq("\u{0}", 9), 3);
    assert_eq!(jieba.get_word_freq("\u{1}0", 9), 7);
    assert_eq!(jieba.suggest_freq("\u{0}"), 4);
}

#[test]
fn empty_text_gives_no_tokens() {
    let jieba = bridge_dict();
    assert_eq!(jieba.tokenize("", TokenizeMode::Search, true), Vec::<Token>::new());
    assert_eq!(jieba.cut_for_search("", false), Vec::<String>::new());
    assert_eq!(jieba.tag("", false), Vec::<Tag>::new());
}

#[test]
fn suggest_freq_rounds_the_whole_product_once() {
    let mut jieba = Jieba::with_dict("甲 9\n乙 1\n").unwrap();
    assert_eq!(jieba.cut("甲甲甲甲甲甲", false).len(), 6);
    // 9^6 / 10^5 = 5.31441, rounded down, plus one
    assert_eq!(jieba.suggest_freq("甲甲甲甲甲甲"), 6);
    assert_eq!(jieba.suggest_freq(""), 11);
    jieba.add_word("丙", Some(0), None);
    assert_eq!(jieba.suggest_freq("丙"), 2);
}

#[test]
fn tag_of_mixed_ascii_is_x() {
    let jieba = Jieba::empty();
    assert_eq!(jieba.cut("3.14%", true), vec!["3.14%"]);
    assert_eq!(jieba.tag("3.14%", true), vec![Tag { word: String::from("3.14%"), tag: String::from("x") }]);
    assert_eq!(jieba.tag("v1.2", true), vec![Tag { word: String::from("v1.2"), tag: String::from("x") }]);
    assert_eq!(jieba.tag("v12", false), vec![Tag { word: String::from("v12"), tag: String::from("eng") }]);
    assert_eq!(jieba.tag("12", false), vec![Tag { word: String::from("12"), tag: String::from("m") }]);
}

#[test]
fn cut_all_skips_a_covered_multi_character_edge() {
    let jieba = Jieba::with_dict("甲乙丙 10\n乙丙 10\n").unwrap();
    assert_eq!(jieba.cut_all("甲乙丙"), vec!["甲乙丙"]);
    let jieba = Jieba::with_dict("甲乙丙 10\n乙丙 10\n乙 5\n").unwrap();
    assert_eq!(jieba.cut_all("甲乙丙"), vec!["甲乙丙", "乙", "乙丙"]);
}

#[test]
fn white_space_stays_apart_from_words() {
    let jieba = toy_dict();
    let words = jieba.cut("网球 \u{3000}拍卖会\r\n\rdef", false);
    assert_eq!(words, vec!["网球", " ", "\u{3000}", "拍卖会", "\r\n", "\r", "def"]);
}

#[test]
fn total_beyond_usize_is_too_large() {
    let mut jieba = Jieba::empty();
    match jieba.load_dict("a 18446744073709551615\nb 1\n") {
        Err(Error::TooLarge(msg)) => assert_eq!(msg, "line 2 `b 1` does not fit"),
        _ => panic!("expected a dictionary too large"),
    }
    assert_eq!(jieba.get_word_freq("a", 0), 18446744073709551615);
    assert_eq!(jieba.get_word_freq("b", 9), 9);
}
