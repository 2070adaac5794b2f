//! Chinese word segmentation: a prefix dictionary, a word graph per sentence,
//! a best-route search over it and a hidden Markov model for unknown runs.

pub mod blocks;
pub mod digits;
pub mod errors;
pub mod graph;
pub mod hmm;
pub mod jieba;
pub mod keywords;
pub mod log_weight;
pub mod segment;
pub mod sparse_dag;
pub mod text;
pub mod tokenize;
pub mod trie;
pub mod userdict;

pub use crate::errors::Error;
pub use crate::hmm::{HmmModel, State};
pub use crate::jieba::{Jieba, Record};
pub use crate::keywords::{KeywordExtractConfig, KeywordExtractConfigBuilder, LoadDefault, TextRank, DEFAULT_STOP_WORDS};
pub use crate::tokenize::{Tag, Token, TokenizeMode};
