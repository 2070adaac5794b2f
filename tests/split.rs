use jieba_rs::blocks::{split_matches, SplitState};

#[test]
fn test_split_matches() {
    let splitter = split_matches("👪 PS: 我觉得开源有一个好处，就是能够敦促自己不断改进 👪，避免敞帚自珍", false);
    for state in splitter {
        match state {
            SplitState::Matched(_) => {
                let block = state.into_str();
                assert!(!block.is_empty());
            }
            SplitState::Unmatched(_) => {
                let block = state.into_str();
                assert!(!block.is_empty());
            }
        }
    }
}

#[test]
fn test_split_matches_against_unicode_sip() {
    let splitter = split_matches("讥䶯䶰䶱䶲䶳䶴䶵𦡦", false);

    let result: Vec<String> = splitter.into_iter().map(|x| x.into_str()).collect();
    assert_eq!(result, vec!["讥䶯䶰䶱䶲䶳䶴䶵𦡦"]);
}

#[test]
fn split_matches_alternates_blocks() {
    let pieces = split_matches("ab 北京, c", false);
    assert_eq!(
        pieces,
        vec![
            SplitState::Matched(String::from("ab")),
            SplitState::Unmatched(String::from(" ")),
            SplitState::Matched(String::from("北京")),
            SplitState::Unmatched(String::from(", ")),
            SplitState::Matched(String::from("c")),
        ]
    );
    let pieces = split_matches("ab北京", true);
    assert_eq!(
        pieces,
        vec![SplitState::Unmatched(String::from("ab")), SplitState::Matched(String::from("北京"))]
    );
}
