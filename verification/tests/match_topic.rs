use caryatid::topic::match_topic;

#[test]
fn exact_matches() {
    assert!(match_topic("foo", "foo"));
    assert!(!match_topic("foo", "bar"));
    assert!(match_topic("foo.bar", "foo.bar"));
}

#[test]
fn star_matches_one_word() {
    assert!(match_topic("*", "foo"));
    assert!(!match_topic("*", "foo.bar"));
    assert!(match_topic("foo.*", "foo.bar"));
    assert!(match_topic("foo.*.baz", "foo.bar.baz"));
}

#[test]
fn hash_matches_multiple_words() {
    assert!(match_topic("#", "foo"));
    assert!(match_topic("#", "foo.bar.baz"));
    assert!(match_topic("foo.#", "foo.bar.baz"));
    assert!(match_topic("foo.bar.#", "foo.bar.baz"));
    assert!(match_topic("foo.#.baz", "foo.bar.baz"));
    assert!(match_topic("#.baz", "foo.bar.baz"));
    assert!(!match_topic("foo.bar.baz#", "foo.bar.baz"));
}

#[test]
fn mixed_patterns() {
    assert!(match_topic("foo.*", "foo.bar"));
    assert!(match_topic("foo.#", "foo.bar.baz"));
    assert!(!match_topic("foo.*", "foo.bar.baz"));
    assert!(match_topic("foo.*.#", "foo.bar.baz"));
}

#[test]
fn literal_pattern_matches_only_equal_topic() {
    assert!(match_topic("a.b.c", "a.b.c"));
    assert!(!match_topic("a.b.c", "a.b"));
    assert!(!match_topic("a.b", "a.b.c"));
    assert!(!match_topic("a.b.c", "a.x.c"));
    assert!(match_topic("", ""));
    assert!(!match_topic("", "a"));
}

#[test]
fn star_stands_for_any_single_word() {
    assert!(match_topic("*.b", "x.b"));
    assert!(match_topic("*.b", ".b"));
    assert!(!match_topic("*.b", "x.y.b"));
    assert!(match_topic("*", ""));
}

#[test]
fn hash_before_more_pattern_may_match_no_words() {
    assert!(match_topic("#.baz", "baz"));
    assert!(match_topic("foo.#.baz", "foo.baz"));
    assert!(match_topic("#.b.c", "x.y.z.b.c"));
    assert!(!match_topic("#.b.c", "x.y.z.b"));
}

#[test]
fn trailing_hash_matches_zero_or_more_words() {
    assert!(match_topic("foo.#", "foo"));
    assert!(match_topic("foo.*.#", "foo.bar"));
    assert!(match_topic("foo.#", "foo.bar"));
    assert!(match_topic("foo.#", "foo.bar.baz"));
    assert!(match_topic("#", ""));
    assert!(match_topic("#.#", "a"));
    assert!(!match_topic("foo.#", "bar"));
    assert!(!match_topic("foo.*.#", "foo"));
}

#[test]
fn topic_words_are_not_wildcards() {
    assert!(!match_topic("foo", "*"));
    assert!(match_topic("*", "*"));
    assert!(!match_topic("foo.bar", "foo.#"));
}

#[test]
fn every_text_matches_itself() {
    for s in ["", "foo", "foo.bar", "*", "#", "a.*.#", "#.#", "..", "a.#.b"] {
        assert!(match_topic(s, s), "{s}");
    }
}

#[test]
fn generalising_a_pattern_word_keeps_its_matches() {
    let topic = "a.b.c";
    assert!(match_topic("a.b.c", topic));
    assert!(match_topic("a.*.c", topic));
    assert!(match_topic("a.#.c", topic));
    assert!(match_topic("*.*.c", topic));
    assert!(match_topic("#.*.c", topic));
    assert!(match_topic("a.b.#", topic));
    assert!(match_topic("a.*.#", "a.x"));
    assert!(match_topic("a.#.#", "a.x"));
}
