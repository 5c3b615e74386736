use nomai_core::fts_query::{escape, quoted_terms, split_words};

#[test]
fn quotes_plain_tokens() {
    assert_eq!(escape("agent memory"), "\"agent\" \"memory\"");
}

#[test]
fn punctuation_becomes_separator() {
    assert_eq!(escape("agent: memory"), "\"agent\" \"memory\"");
    assert_eq!(escape("rust -language"), "\"rust\" \"language\"");
    // Mirror the trigram tokenizer: underscores split tokens on the
    // indexing side too, so "rrf_fuse" is indexed as "rrf" "fuse".
    assert_eq!(escape("rrf_fuse"), "\"rrf\" \"fuse\"");
}

#[test]
fn cjk_survives() {
    assert_eq!(escape("记忆原语"), "\"记忆原语\"");
}

#[test]
fn punctuation_only_reduces_to_empty() {
    assert_eq!(escape(":::"), "");
    assert_eq!(escape(""), "");
}

#[test]
fn operators_are_only_words() {
    assert_eq!(escape("a OR b*"), "\"a\" \"OR\" \"b\"");
    assert_eq!(escape("he said \"no\""), "\"he\" \"said\" \"no\"");
}

#[test]
fn words_are_runs_of_marked_characters() {
    let marks = vec![true, true, false, false, true];
    assert_eq!(split_words("ab--c", &marks), vec!["ab", "c"]);
    assert_eq!(quoted_terms("ab--c", &marks), "\"ab\" \"c\"");
}
