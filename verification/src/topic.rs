//! Matching of dotted topics against subscription patterns, RabbitMQ style:
//! a `*` word stands for exactly one topic word, a `#` word for any run of words, none included.
use vstd::prelude::*;

use crate::text::{
    chars_eq, chars_of, join_with, lemma_split_concat, lemma_split_injective, lemma_split_join,
    lemma_split_nonempty, lemma_split_pieces_free, lemma_split_single, split_chars, split_on, words_view,
};

verus! {

/// The word separator of topics and patterns.
pub open spec fn sep() -> char {
    '.'
}

/// The pattern word that stands for exactly one topic word.
pub open spec fn star_word() -> Seq<char> {
    seq!['*']
}

/// The pattern word that stands for a run of topic words.
pub open spec fn hash_word() -> Seq<char> {
    seq!['#']
}

/// Whether the pattern words `p` match the topic words `t`, walking both from the front:
/// a `#` stands for any run of topic words, none included, in front of a tail that the
/// rest of the pattern matches; a `*` consumes exactly one topic word; any other word
/// must equal the next topic word.
pub open spec fn words_match(p: Seq<Seq<char>>, t: Seq<Seq<char>>) -> bool
    decreases p.len(), 0int,
{
    if p.len() == 0 {
        t.len() == 0
    } else if p[0] == hash_word() {
        some_tail_matches(p.drop_first(), t, 0)
    } else if t.len() == 0 {
        false
    } else if p[0] == star_word() {
        words_match(p.drop_first(), t.drop_first())
    } else {
        p[0] == t[0] && words_match(p.drop_first(), t.drop_first())
    }
}

/// Whether `p` matches the tail of `t` that starts at word `k` or at some later word
/// (the empty tail after the last word included).
pub open spec fn some_tail_matches(p: Seq<Seq<char>>, t: Seq<Seq<char>>, k: int) -> bool
    decreases p.len(), t.len() + 1 - k,
{
    if k < 0 || k > t.len() {
        false
    } else {
        words_match(p, t.skip(k)) || some_tail_matches(p, t, k + 1)
    }
}

/// `some_tail_matches` holds exactly when some tail from word `k` on matches.
pub proof fn lemma_some_tail_matches(p: Seq<Seq<char>>, t: Seq<Seq<char>>, k: int)
    requires
        0 <= k,
    ensures
        some_tail_matches(p, t, k) <==> exists|m: int| k <= m <= t.len() && #[trigger] words_match(p, t.skip(m)),
    decreases t.len() + 1 - k,
{
    if k <= t.len() {
        lemma_some_tail_matches(p, t, k + 1);
        if some_tail_matches(p, t, k + 1) {
            let m = choose|m: int| k + 1 <= m <= t.len() && #[trigger] words_match(p, t.skip(m));
            assert(k <= m <= t.len() && words_match(p, t.skip(m)));
        }
        if words_match(p, t.skip(k)) {
            assert(k <= k <= t.len() && words_match(p, t.skip(k)));
        }
    }
}

/// Whether the dotted `topic` matches the dotted `pattern`.
pub open spec fn topic_matches(pattern: Seq<char>, topic: Seq<char>) -> bool {
    words_match(split_on(pattern, sep()), split_on(topic, sep()))
}

/// A pattern word other than `*` and `#`.
pub open spec fn is_literal_word(w: Seq<char>) -> bool {
    w != star_word() && w != hash_word()
}

fn is_star(w: &Vec<char>) -> (res: bool)
    ensures
        res == (w@ == star_word()),
{
    if w.len() == 1 && w[0] == '*' {
        assert(w@ =~= star_word());
        true
    } else {
        false
    }
}

fn is_hash(w: &Vec<char>) -> (res: bool)
    ensures
        res == (w@ == hash_word()),
{
    if w.len() == 1 && w[0] == '#' {
        assert(w@ =~= hash_word());
        true
    } else {
        false
    }
}

pub proof fn lemma_wildcards_differ()
    ensures
        star_word() != hash_word(),
{
    assert(star_word()[0] != hash_word()[0]);
}

proof fn lemma_skip_step(s: Seq<Seq<char>>, i: int)
    requires
        0 <= i < s.len(),
    ensures
        s.skip(i)[0] == s[i],
        s.skip(i).drop_first() == s.skip(i + 1),
        s.skip(i).len() == s.len() - i,
{
    assert(s.skip(i).drop_first() =~= s.skip(i + 1));
}

proof fn lemma_skip_skip(s: Seq<Seq<char>>, j: int, k: int)
    requires
        0 <= j <= s.len(),
        0 <= k <= s.len() - j,
    ensures
        s.skip(j).skip(k) == s.skip(j + k),
{
    assert(s.skip(j).skip(k) =~= s.skip(j + k));
}

/// Match the pattern words from `i_start` on against the topic words from `j_start` on.
fn match_from(p: &Vec<Vec<char>>, i_start: usize, t: &Vec<Vec<char>>, j_start: usize) -> (res: bool)
    requires
        i_start <= p.len(),
        j_start <= t.len(),
    ensures
        res == words_match(words_view(p@).skip(i_start as int), words_view(t@).skip(j_start as int)),
    decreases p.len() - i_start,
{
    let ghost pw = words_view(p@);
    let ghost tw = words_view(t@);
    let ghost goal = words_match(pw.skip(i_start as int), tw.skip(j_start as int));
    let i0 = i_start;
    let mut i = i_start;
    let mut j = j_start;
    while i < p.len()
        invariant
            i0 == i_start,
            goal == words_match(words_view(p@).skip(i_start as int), words_view(t@).skip(j_start as int)),
            i0 <= i <= p.len(),
            j <= t.len(),
            pw == words_view(p@),
            tw == words_view(t@),
            goal == words_match(pw.skip(i as int), tw.skip(j as int)),
        decreases p.len() - i,
    {
        proof {
            lemma_skip_step(pw, i as int);
            assert(pw[i as int] == p@[i as int]@);
        }
        if is_hash(&p[i]) {
            let ghost rest = pw.skip(i + 1);
            let ghost tail = tw.skip(j as int);
            assert(goal == some_tail_matches(rest, tail, 0));
            if i == p.len() - 1 {
                proof {
                    assert(rest.len() == 0);
                    assert(tail.skip(tail.len() as int).len() == 0);
                    lemma_some_tail_matches(rest, tail, 0);
                    assert(words_match(rest, tail.skip(tail.len() as int)));
                }
                return true;
            }
            let mut k = j;
            while k < t.len()
                invariant
                    i0 == i_start,
                    goal == words_match(words_view(p@).skip(i_start as int), words_view(t@).skip(j_start as int)),
                    i0 <= i < p.len() - 1,
                    j <= k <= t.len(),
                    pw == words_view(p@),
                    tw == words_view(t@),
                    rest == pw.skip(i + 1),
                    tail == tw.skip(j as int),
                    goal == some_tail_matches(rest, tail, k - j),
                decreases t.len() - k,
            {
                let found = match_from(p, i + 1, t, k);
                proof {
                    lemma_skip_skip(tw, j as int, k - j);
                }
                if found {
                    assert(words_match(rest, tail.skip(k - j)));
                    return true;
                }
                k += 1;
            }
            let found = match_from(p, i + 1, t, k);
            proof {
                lemma_skip_skip(tw, j as int, k - j);
                assert(!some_tail_matches(rest, tail, k - j + 1));
            }
            return found;
        }
        if j == t.len() {
            assert(tw.skip(j as int).len() == 0);
            return false;
        }
        proof {
            lemma_skip_step(tw, j as int);
            assert(tw[j as int] == t@[j as int]@);
        }
        if is_star(&p[i]) {
            i += 1;
            j += 1;
        } else if chars_eq(&p[i], &t[j]) {
            proof {
                lemma_wildcards_differ();
            }
            i += 1;
            j += 1;
        } else {
            return false;
        }
    }
    assert(pw.skip(i as int).len() == 0);
    j == t.len()
}

proof fn lemma_literal_words(p: Seq<Seq<char>>, t: Seq<Seq<char>>)
    requires
        forall|k: int| 0 <= k < p.len() ==> is_literal_word(#[trigger] p[k]),
    ensures
        words_match(p, t) <==> p == t,
    decreases p.len(),
{
    if p.len() == 0 || t.len() == 0 {
        if p.len() == 0 && t.len() == 0 {
            assert(p =~= t);
        }
        if p == t {
            assert(p.len() == t.len());
        }
    } else {
        assert(is_literal_word(p[0]));
        assert forall|k: int| 0 <= k < p.drop_first().len() implies is_literal_word(#[trigger] p.drop_first()[k]) by {
            assert(is_literal_word(p[k + 1]));
        }
        lemma_literal_words(p.drop_first(), t.drop_first());
        if p == t {
            assert(p.drop_first() =~= t.drop_first());
        }
        if p[0] == t[0] && p.drop_first() == t.drop_first() {
            assert forall|k: int| 0 <= k < p.len() implies p[k] == t[k] by {
                if k > 0 {
                    assert(p[k] == p.drop_first()[k - 1]);
                    assert(t[k] == t.drop_first()[k - 1]);
                }
            }
            assert(p =~= t);
        }
    }
}

/// Leading literal words shared by pattern and topic can be dropped.
pub proof fn lemma_literal_prefix(p: Seq<Seq<char>>, q: Seq<Seq<char>>, t: Seq<Seq<char>>)
    requires
        forall|k: int| 0 <= k < p.len() ==> is_literal_word(#[trigger] p[k]),
    ensures
        words_match(p + q, p + t) == words_match(q, t),
    decreases p.len(),
{
    if p.len() == 0 {
        assert(p + q =~= q);
        assert(p + t =~= t);
    } else {
        assert(is_literal_word(p[0]));
        assert forall|k: int| 0 <= k < p.drop_first().len() implies is_literal_word(#[trigger] p.drop_first()[k]) by {
            assert(is_literal_word(p[k + 1]));
        }
        lemma_literal_prefix(p.drop_first(), q, t);
        assert((p + q).drop_first() =~= p.drop_first() + q);
        assert((p + t).drop_first() =~= p.drop_first() + t);
        assert((p + q)[0] == p[0]);
        assert((p + t)[0] == p[0]);
    }
}

pub proof fn lemma_wildcard_words_single()
    ensures
        split_on(star_word(), sep()) == seq![star_word()],
        split_on(hash_word(), sep()) == seq![hash_word()],
{
    assert(!star_word().contains(sep())) by {
        if star_word().contains(sep()) {
            let m = choose|m: int| 0 <= m < star_word().len() && star_word()[m] == sep();
            assert(star_word()[0] == '*');
        }
    }
    assert(!hash_word().contains(sep())) by {
        if hash_word().contains(sep()) {
            let m = choose|m: int| 0 <= m < hash_word().len() && hash_word()[m] == sep();
            assert(hash_word()[0] == '#');
        }
    }
    lemma_split_single(star_word(), sep());
    lemma_split_single(hash_word(), sep());
}

/// A pattern made only of literal words (no `*`, no `#`) matches exactly
/// the topic that is equal to it.
pub proof fn law_literal_pattern_matches_only_itself(pattern: Seq<char>, topic: Seq<char>)
    requires
        forall|k: int|
            0 <= k < split_on(pattern, sep()).len() ==> is_literal_word(
                #[trigger] split_on(pattern, sep())[k],
            ),
    ensures
        topic_matches(pattern, topic) <==> pattern == topic,
{
    lemma_literal_words(split_on(pattern, sep()), split_on(topic, sep()));
    if split_on(pattern, sep()) == split_on(topic, sep()) {
        lemma_split_injective(pattern, topic, sep());
    }
}

/// The pattern `*` matches exactly the topics of one word, those without a dot.
pub proof fn law_star_matches_one_word(topic: Seq<char>)
    ensures
        topic_matches(star_word(), topic) <==> !topic.contains(sep()),
{
    lemma_wildcard_words_single();
    lemma_split_single(topic, sep());
    lemma_split_nonempty(topic, sep());
    lemma_wildcards_differ();
    let t = split_on(topic, sep());
    assert(seq![star_word()].drop_first() =~= Seq::<Seq<char>>::empty());
    assert(words_match(seq![star_word()], t) == words_match(Seq::<Seq<char>>::empty(), t.drop_first()));
}

/// A leading `*` consumes exactly one topic word, whatever that word is.
pub proof fn law_star_consumes_one_word(word: Seq<char>, rest_pattern: Seq<char>, rest_topic: Seq<char>)
    requires
        !word.contains(sep()),
    ensures
        topic_matches(star_word().push(sep()) + rest_pattern, word.push(sep()) + rest_topic)
            == topic_matches(rest_pattern, rest_topic),
{
    lemma_wildcard_words_single();
    lemma_split_single(word, sep());
    lemma_split_concat(star_word(), rest_pattern, sep());
    lemma_split_concat(word, rest_topic, sep());
    let p = split_on(rest_pattern, sep());
    let t = split_on(rest_topic, sep());
    assert((seq![star_word()] + p).drop_first() =~= p);
    assert((seq![word] + t).drop_first() =~= t);
    assert((seq![star_word()] + p)[0] == star_word());
}

/// A leading literal word must equal the first topic word, and the rest must match.
pub proof fn law_literal_word_must_be_equal(
    pattern_word: Seq<char>,
    topic_word: Seq<char>,
    rest_pattern: Seq<char>,
    rest_topic: Seq<char>,
)
    requires
        !pattern_word.contains(sep()),
        !topic_word.contains(sep()),
        is_literal_word(pattern_word),
    ensures
        topic_matches(pattern_word.push(sep()) + rest_pattern, topic_word.push(sep()) + rest_topic)
            == (pattern_word == topic_word && topic_matches(rest_pattern, rest_topic)),
{
    lemma_split_single(pattern_word, sep());
    lemma_split_single(topic_word, sep());
    lemma_split_concat(pattern_word, rest_pattern, sep());
    lemma_split_concat(topic_word, rest_topic, sep());
    let p = split_on(rest_pattern, sep());
    let t = split_on(rest_topic, sep());
    assert((seq![pattern_word] + p).drop_first() =~= p);
    assert((seq![topic_word] + t).drop_first() =~= t);
    assert((seq![pattern_word] + p)[0] == pattern_word);
    assert((seq![topic_word] + t)[0] == topic_word);
}

/// The pattern `#` matches every topic.
pub proof fn law_hash_matches_every_topic(topic: Seq<char>)
    ensures
        topic_matches(hash_word(), topic),
{
    lemma_wildcard_words_single();
    lemma_wildcards_differ();
    let t = split_on(topic, sep());
    assert(seq![hash_word()].drop_first() =~= Seq::<Seq<char>>::empty());
    assert(t.skip(t.len() as int).len() == 0);
    lemma_some_tail_matches(Seq::<Seq<char>>::empty(), t, 0);
    assert(words_match(Seq::<Seq<char>>::empty(), t.skip(t.len() as int)));
}

proof fn lemma_trailing_hash_words(p: Seq<Seq<char>>, t: Seq<Seq<char>>)
    requires
        words_match(p, t),
    ensures
        words_match(p.push(hash_word()), t),
    decreases p.len(),
{
    let q = p.push(hash_word());
    assert(q[0] == if p.len() == 0 { hash_word() } else { p[0] });
    if p.len() == 0 {
        assert(q.drop_first() =~= Seq::<Seq<char>>::empty());
        assert(t.skip(0) =~= t);
        lemma_some_tail_matches(q.drop_first(), t, 0);
        assert(words_match(q.drop_first(), t.skip(0)));
    } else {
        assert(q.drop_first() =~= p.drop_first().push(hash_word()));
        if p[0] == hash_word() {
            lemma_some_tail_matches(p.drop_first(), t, 0);
            let m = choose|m: int| 0 <= m <= t.len() && #[trigger] words_match(p.drop_first(), t.skip(m));
            lemma_trailing_hash_words(p.drop_first(), t.skip(m));
            lemma_some_tail_matches(q.drop_first(), t, 0);
            assert(words_match(q.drop_first(), t.skip(m)));
        } else {
            lemma_trailing_hash_words(p.drop_first(), t.drop_first());
        }
    }
}

/// A `#` added at the end of a pattern may stand for no topic words: every topic that
/// the pattern matches, the pattern followed by `.#` matches too.
pub proof fn law_trailing_hash_matches_zero_words(pattern: Seq<char>, topic: Seq<char>)
    requires
        topic_matches(pattern, topic),
    ensures
        topic_matches(pattern.push(sep()) + hash_word(), topic),
{
    lemma_wildcard_words_single();
    lemma_split_concat(pattern, hash_word(), sep());
    let p = split_on(pattern, sep());
    assert(p + seq![hash_word()] =~= p.push(hash_word()));
    lemma_trailing_hash_words(p, split_on(topic, sep()));
}

/// A leading `#` followed by more pattern may stand for no topic words at all.
pub proof fn law_hash_matches_zero_words(rest_pattern: Seq<char>, topic: Seq<char>)
    requires
        topic_matches(rest_pattern, topic),
    ensures
        topic_matches(hash_word().push(sep()) + rest_pattern, topic),
{
    lemma_wildcard_words_single();
    lemma_wildcards_differ();
    lemma_split_concat(hash_word(), rest_pattern, sep());
    lemma_split_nonempty(rest_pattern, sep());
    lemma_split_nonempty(topic, sep());
    let p = split_on(rest_pattern, sep());
    let t = split_on(topic, sep());
    assert((seq![hash_word()] + p).drop_first() =~= p);
    assert((seq![hash_word()] + p)[0] == hash_word());
    assert(t.skip(0) =~= t);
    lemma_some_tail_matches(p, t, 0);
    assert(words_match(p, t.skip(0)));
}

/// A leading `#` followed by more pattern may stand for any run of topic words
/// in front of a tail that the rest of the pattern matches.
pub proof fn law_hash_matches_leading_words(rest_pattern: Seq<char>, skipped: Seq<char>, topic: Seq<char>)
    requires
        topic_matches(rest_pattern, topic),
    ensures
        topic_matches(hash_word().push(sep()) + rest_pattern, skipped.push(sep()) + topic),
{
    lemma_wildcard_words_single();
    lemma_wildcards_differ();
    lemma_split_concat(hash_word(), rest_pattern, sep());
    lemma_split_concat(skipped, topic, sep());
    lemma_split_nonempty(rest_pattern, sep());
    lemma_split_nonempty(topic, sep());
    let p = split_on(rest_pattern, sep());
    let a = split_on(skipped, sep());
    let t = split_on(topic, sep());
    assert((seq![hash_word()] + p).drop_first() =~= p);
    assert((seq![hash_word()] + p)[0] == hash_word());
    assert((a + t).skip(a.len() as int) =~= t);
    lemma_some_tail_matches(p, a + t, 0);
    assert(words_match(p, (a + t).skip(a.len() as int)));
}

proof fn lemma_words_match_self(p: Seq<Seq<char>>)
    ensures
        words_match(p, p),
    decreases p.len(),
{
    if p.len() > 0 {
        lemma_words_match_self(p.drop_first());
        if p[0] == hash_word() {
            assert(p.skip(1) =~= p.drop_first());
            lemma_some_tail_matches(p.drop_first(), p, 0);
            assert(words_match(p.drop_first(), p.skip(1)));
        }
    }
}

/// Every text, wildcard words and all, matches itself used as a pattern.
pub proof fn law_every_text_matches_itself(text: Seq<char>)
    ensures
        topic_matches(text, text),
{
    lemma_words_match_self(split_on(text, sep()));
}

proof fn lemma_generalise_word(p: Seq<Seq<char>>, t: Seq<Seq<char>>, i: int, w: Seq<char>)
    requires
        words_match(p, t),
        0 <= i < p.len(),
        (w == star_word() && p[i] != hash_word()) || w == hash_word(),
    ensures
        words_match(p.update(i, w), t),
    decreases p.len(),
{
    lemma_wildcards_differ();
    let q = p.update(i, w);
    if i == 0 {
        assert(q.drop_first() =~= p.drop_first());
        if p[0] == hash_word() {
            assert(q =~= p);
        } else {
            if w == hash_word() {
                assert(t.skip(1) =~= t.drop_first());
                lemma_some_tail_matches(q.drop_first(), t, 0);
                assert(words_match(q.drop_first(), t.skip(1)));
            }
        }
    } else {
        assert(q[0] == p[0]);
        assert(q.drop_first() =~= p.drop_first().update(i - 1, w));
        assert(p.drop_first()[i - 1] == p[i]);
        if p[0] == hash_word() {
            lemma_some_tail_matches(p.drop_first(), t, 0);
            let m = choose|m: int| 0 <= m <= t.len() && #[trigger] words_match(p.drop_first(), t.skip(m));
            lemma_generalise_word(p.drop_first(), t.skip(m), i - 1, w);
            lemma_some_tail_matches(q.drop_first(), t, 0);
            assert(words_match(q.drop_first(), t.skip(m)));
        } else {
            lemma_generalise_word(p.drop_first(), t.drop_first(), i - 1, w);
        }
    }
}

/// A more general pattern never loses a match: turning one word of a pattern that
/// is not `#` into `*`, or turning any one word into `#`, keeps every topic it matched.
pub proof fn law_generalising_a_word_keeps_matches(pattern: Seq<char>, topic: Seq<char>, i: int, w: Seq<char>)
    requires
        topic_matches(pattern, topic),
        0 <= i < split_on(pattern, sep()).len(),
        (w == star_word() && split_on(pattern, sep())[i] != hash_word()) || w == hash_word(),
    ensures
        topic_matches(join_with(split_on(pattern, sep()).update(i, w), sep()), topic),
{
    let ws = split_on(pattern, sep());
    let q = ws.update(i, w);
    lemma_split_pieces_free(pattern, sep());
    lemma_wildcard_words_single();
    lemma_split_single(w, sep());
    assert forall|k: int| 0 <= k < q.len() implies !(#[trigger] q[k]).contains(sep()) by {
        if k == i {
            if w.contains(sep()) {
                assert(split_on(w, sep()).len() >= 2);
            }
        } else {
            assert(q[k] == ws[k]);
        }
    }
    lemma_split_join(q, sep());
    lemma_generalise_word(ws, split_on(topic, sep()), i, w);
}

/// How many words of `p` are not `#`.
pub open spec fn non_hash_words(p: Seq<Seq<char>>) -> nat
    decreases p.len(),
{
    if p.len() == 0 {
        0
    } else {
        non_hash_words(p.drop_first()) + if p[0] == hash_word() { 0nat } else { 1nat }
    }
}

proof fn lemma_match_needs_words(p: Seq<Seq<char>>, t: Seq<Seq<char>>)
    requires
        words_match(p, t),
    ensures
        t.len() >= non_hash_words(p),
    decreases p.len(),
{
    if p.len() > 0 {
        if p[0] == hash_word() {
            lemma_some_tail_matches(p.drop_first(), t, 0);
            let m = choose|m: int| 0 <= m <= t.len() && #[trigger] words_match(p.drop_first(), t.skip(m));
            lemma_match_needs_words(p.drop_first(), t.skip(m));
        } else {
            lemma_match_needs_words(p.drop_first(), t.drop_first());
        }
    }
}

/// A match needs a topic word for every pattern word that is not `#`: only `#`
/// may stand for no word, so a topic that matches has at least as many words as
/// the pattern has words other than `#`.
pub proof fn law_match_needs_a_word_for_each_non_hash_word(pattern: Seq<char>, topic: Seq<char>)
    requires
        topic_matches(pattern, topic),
    ensures
        split_on(topic, sep()).len() >= non_hash_words(split_on(pattern, sep())),
{
    lemma_match_needs_words(split_on(pattern, sep()), split_on(topic, sep()));
}

/// No topic words at all are matched exactly by the patterns made only of `#` words.
pub proof fn law_only_hash_words_match_no_words(p: Seq<Seq<char>>)
    ensures
        words_match(p, Seq::<Seq<char>>::empty()) <==> non_hash_words(p) == 0,
    decreases p.len(),
{
    let e = Seq::<Seq<char>>::empty();
    if words_match(p, e) {
        lemma_match_needs_words(p, e);
    }
    if p.len() > 0 && p[0] == hash_word() {
        law_only_hash_words_match_no_words(p.drop_first());
        lemma_some_tail_matches(p.drop_first(), e, 0);
        assert(e.skip(0) =~= e);
        if non_hash_words(p) == 0 {
            assert(words_match(p.drop_first(), e.skip(0)));
        }
    }
}

/// A pattern without `#` words matches only topics with as many words as it has.
pub proof fn law_pattern_without_hash_fixes_the_word_count(p: Seq<Seq<char>>, t: Seq<Seq<char>>)
    requires
        forall|k: int| 0 <= k < p.len() ==> #[trigger] p[k] != hash_word(),
        words_match(p, t),
    ensures
        t.len() == p.len(),
    decreases p.len(),
{
    if p.len() > 0 {
        assert(p[0] != hash_word());
        assert forall|k: int| 0 <= k < p.drop_first().len() implies #[trigger] p.drop_first()[k] != hash_word() by {
            assert(p.drop_first()[k] == p[k + 1]);
        }
        law_pattern_without_hash_fixes_the_word_count(p.drop_first(), t.drop_first());
    }
}

/// Match a dotted topic against a pattern, as RabbitMQ does:
/// `*` matches one word, `#` matches zero or more words.
pub fn match_topic(pattern: &str, topic: &str) -> (res: bool)
    ensures
        res == topic_matches(pattern@, topic@),
{
    let pc = chars_of(pattern);
    let tc = chars_of(topic);
    let p = split_chars(&pc, '.');
    let t = split_chars(&tc, '.');
    let res = match_from(&p, 0, &t, 0);
    proof {
        assert(words_view(p@).skip(0) =~= words_view(p@));
        assert(words_view(t@).skip(0) =~= words_view(t@));
    }
    res
}

} // verus!
