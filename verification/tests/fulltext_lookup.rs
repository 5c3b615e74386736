use nomai_core::fts_query::escape;
use nomai_core::fulltext::{lookup_for, TextLookup};

#[test]
fn a_query_is_asked_of_the_index_as_literal_terms() {
    assert!(matches!(lookup_for("agent: memory"), TextLookup::Terms(t)
        if t == "\"agent\" \"memory\""));
    assert!(matches!(lookup_for("a OR b"), TextLookup::Terms(t) if t == "\"a\" \"OR\" \"b\""));
}

#[test]
fn a_query_without_terms_asks_nothing() {
    assert!(matches!(lookup_for(":::"), TextLookup::Nothing));
    assert!(matches!(lookup_for("---"), TextLookup::Nothing));
}

#[test]
fn a_short_query_is_looked_for_in_the_texts() {
    assert!(matches!(lookup_for("5%"), TextLookup::Pattern(p) if p == "%5\\%%"));
    assert!(matches!(lookup_for("\\_"), TextLookup::Pattern(p) if p == "%\\\\\\_%"));
    assert!(matches!(lookup_for("\\"), TextLookup::Pattern(p) if p == "%\\\\%"));
    assert!(matches!(lookup_for("::"), TextLookup::Pattern(p) if p == "%::%"));
}

#[test]
fn escaping_twice_changes_nothing() {
    for query in ["agent: memory", "node.js", "say \"hi\" now", ":::", "", "入门 guide"] {
        let once = escape(query);
        assert_eq!(escape(&once), once);
    }
}

#[test]
fn punctuation_acts_as_a_space() {
    for c in [':', '-', '.', '"', '*', '(', '\t', '—'] {
        assert_eq!(escape(&format!("agent{c}memory")), escape("agent memory"));
    }
    assert_eq!(escape("agent\"memory"), "\"agent\" \"memory\"");
}
