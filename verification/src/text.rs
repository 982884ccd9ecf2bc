//! Character-level text handling shared by the topic, REST and correlation logic.
use vstd::prelude::*;

verus! {

/// The pieces of `s` between the separators `sep`, in order, empty pieces kept:
/// a text with `n` separators has `n + 1` pieces.
pub open spec fn split_on(s: Seq<char>, sep: char) -> Seq<Seq<char>>
    decreases s.len(),
{
    if s.len() == 0 {
        seq![Seq::<char>::empty()]
    } else {
        let r = split_on(s.drop_last(), sep);
        if s.last() == sep {
            r.push(Seq::<char>::empty())
        } else {
            r.update(r.len() - 1, r.last().push(s.last()))
        }
    }
}

/// The pieces of `words` with `sep` between each two neighbours.
pub open spec fn join_with(words: Seq<Seq<char>>, sep: char) -> Seq<char>
    decreases words.len(),
{
    if words.len() == 0 {
        Seq::<char>::empty()
    } else if words.len() == 1 {
        words[0]
    } else {
        join_with(words.drop_last(), sep).push(sep) + words.last()
    }
}

/// Splitting always yields at least one piece.
pub proof fn lemma_split_nonempty(s: Seq<char>, sep: char)
    ensures
        split_on(s, sep).len() >= 1,
    decreases s.len(),
{
    if s.len() > 0 {
        lemma_split_nonempty(s.drop_last(), sep);
    }
}

/// No piece of a split holds the separator.
pub proof fn lemma_split_pieces_free(s: Seq<char>, sep: char)
    ensures
        forall|k: int| 0 <= k < split_on(s, sep).len() ==> !(#[trigger] split_on(s, sep)[k]).contains(sep),
    decreases s.len(),
{
    if s.len() > 0 {
        lemma_split_pieces_free(s.drop_last(), sep);
        lemma_split_nonempty(s.drop_last(), sep);
        let r = split_on(s.drop_last(), sep);
        if s.last() != sep {
            let w = r.last().push(s.last());
            assert forall|k: int| 0 <= k < split_on(s, sep).len() implies !(#[trigger] split_on(s, sep)[k]).contains(sep) by {
                if k == r.len() - 1 {
                    assert(split_on(s, sep)[k] == w);
                    if w.contains(sep) {
                        let m = choose|m: int| 0 <= m < w.len() && w[m] == sep;
                        if m < r.last().len() {
                            assert(r.last()[m] == sep);
                            assert(r[r.len() - 1].contains(sep));
                        }
                    }
                }
            }
        } else {
            assert forall|k: int| 0 <= k < split_on(s, sep).len() implies !(#[trigger] split_on(s, sep)[k]).contains(sep) by {
                if k < r.len() {
                    assert(split_on(s, sep)[k] == r[k]);
                }
            }
        }
    }
}

/// Joining the pieces of a split gives the text back.
pub proof fn lemma_join_split(s: Seq<char>, sep: char)
    ensures
        join_with(split_on(s, sep), sep) == s,
    decreases s.len(),
{
    if s.len() > 0 {
        let p = s.drop_last();
        lemma_join_split(p, sep);
        lemma_split_nonempty(p, sep);
        let r = split_on(p, sep);
        if s.last() == sep {
            let r2 = r.push(Seq::<char>::empty());
            assert(r2.drop_last() =~= r);
            assert(join_with(r2, sep) =~= p.push(sep));
            assert(s =~= p.push(sep));
        } else {
            let r2 = r.update(r.len() - 1, r.last().push(s.last()));
            if r.len() == 1 {
                assert(join_with(r2, sep) =~= s);
            } else {
                assert(r2.drop_last() =~= r.drop_last());
                assert(join_with(r2, sep) =~= join_with(r.drop_last(), sep).push(sep) + r.last().push(s.last()));
                let x = join_with(r.drop_last(), sep).push(sep);
                assert(join_with(r, sep) == x + r.last());
                assert(s =~= p.push(s.last()));
                assert((x + r.last()).push(s.last()) =~= x + r.last().push(s.last()));
                assert(join_with(r2, sep) =~= s);
            }
        }
    }
}

/// Two texts with the same split are the same text.
pub proof fn lemma_split_injective(a: Seq<char>, b: Seq<char>, sep: char)
    requires
        split_on(a, sep) == split_on(b, sep),
    ensures
        a == b,
{
    lemma_join_split(a, sep);
    lemma_join_split(b, sep);
}

/// A text without separators is a single piece; a text with one has at least two.
pub proof fn lemma_split_single(s: Seq<char>, sep: char)
    ensures
        !s.contains(sep) ==> split_on(s, sep) == seq![s],
        s.contains(sep) ==> split_on(s, sep).len() >= 2,
    decreases s.len(),
{
    if s.len() > 0 {
        let p = s.drop_last();
        lemma_split_single(p, sep);
        lemma_split_nonempty(p, sep);
        let r = split_on(p, sep);
        if s.last() == sep {
            assert(s[s.len() - 1] == sep);
        } else {
            if s.contains(sep) {
                let m = choose|m: int| 0 <= m < s.len() && s[m] == sep;
                assert(p[m] == sep);
            } else {
                if p.contains(sep) {
                    let m = choose|m: int| 0 <= m < p.len() && p[m] == sep;
                    assert(s[m] == sep);
                }
                assert(p.push(s.last()) =~= s);
                assert(split_on(s, sep) =~= seq![s]);
            }
        }
    } else {
        assert(s =~= Seq::<char>::empty());
        assert(split_on(s, sep) =~= seq![s]);
    }
}

/// Splitting `a`, a separator, then `b` gives the pieces of `a` followed by those of `b`.
pub proof fn lemma_split_concat(a: Seq<char>, b: Seq<char>, sep: char)
    ensures
        split_on(a.push(sep) + b, sep) == split_on(a, sep) + split_on(b, sep),
    decreases b.len(),
{
    let s = a.push(sep) + b;
    lemma_split_nonempty(a, sep);
    if b.len() == 0 {
        assert(s =~= a.push(sep));
        assert(s.drop_last() =~= a);
        assert(split_on(s, sep) =~= split_on(a, sep) + split_on(b, sep));
    } else {
        lemma_split_concat(a, b.drop_last(), sep);
        lemma_split_nonempty(b.drop_last(), sep);
        assert(s.drop_last() =~= a.push(sep) + b.drop_last());
        assert(s.last() == b.last());
        let x = split_on(a, sep);
        let y = split_on(b.drop_last(), sep);
        if b.last() == sep {
            assert(split_on(s, sep) =~= (x + y).push(Seq::<char>::empty()));
            assert(split_on(b, sep) =~= y.push(Seq::<char>::empty()));
            assert(split_on(s, sep) =~= x + split_on(b, sep));
        } else {
            let xy = x + y;
            assert(xy.last() == y.last());
            assert(split_on(s, sep) =~= xy.update(xy.len() - 1, y.last().push(b.last())));
            assert(split_on(b, sep) =~= y.update(y.len() - 1, y.last().push(b.last())));
            assert(split_on(s, sep) =~= x + split_on(b, sep));
        }
    }
}

/// Splitting the join of separator-free words gives the words back.
pub proof fn lemma_split_join(ws: Seq<Seq<char>>, sep: char)
    requires
        ws.len() >= 1,
        forall|k: int| 0 <= k < ws.len() ==> !(#[trigger] ws[k]).contains(sep),
    ensures
        split_on(join_with(ws, sep), sep) == ws,
    decreases ws.len(),
{
    if ws.len() == 1 {
        assert(!ws[0].contains(sep));
        lemma_split_single(ws[0], sep);
        assert(seq![ws[0]] =~= ws);
    } else {
        let d = ws.drop_last();
        assert forall|k: int| 0 <= k < d.len() implies !(#[trigger] d[k]).contains(sep) by {
            assert(d[k] == ws[k]);
        }
        lemma_split_join(d, sep);
        assert(!ws[ws.len() - 1].contains(sep));
        lemma_split_single(ws.last(), sep);
        lemma_split_concat(join_with(d, sep), ws.last(), sep);
        assert(d + seq![ws.last()] =~= ws);
    }
}

/// Whether `a` comes strictly before `b` in the order in which std orders strings:
/// character by character from the front by code point (for UTF-8 text the same as
/// byte by byte), a proper prefix before any longer text.
pub open spec fn text_lt(a: Seq<char>, b: Seq<char>) -> bool
    decreases a.len(),
{
    if a.len() == 0 {
        b.len() > 0
    } else if b.len() == 0 {
        false
    } else if a[0] != b[0] {
        (a[0] as int) < (b[0] as int)
    } else {
        text_lt(a.drop_first(), b.drop_first())
    }
}

/// No text comes before itself.
pub proof fn lemma_text_lt_irreflexive(a: Seq<char>)
    ensures
        !text_lt(a, a),
    decreases a.len(),
{
    if a.len() > 0 {
        lemma_text_lt_irreflexive(a.drop_first());
    }
}

/// The order of texts is transitive.
pub proof fn lemma_text_lt_transitive(a: Seq<char>, b: Seq<char>, c: Seq<char>)
    requires
        text_lt(a, b),
        text_lt(b, c),
    ensures
        text_lt(a, c),
    decreases a.len(),
{
    if a.len() > 0 && b.len() > 0 && c.len() > 0 && a[0] == b[0] && b[0] == c[0] {
        lemma_text_lt_transitive(a.drop_first(), b.drop_first(), c.drop_first());
    }
}

/// Of two different texts, one comes before the other.
pub proof fn lemma_text_lt_total(a: Seq<char>, b: Seq<char>)
    requires
        a != b,
    ensures
        text_lt(a, b) || text_lt(b, a),
    decreases a.len(),
{
    if a.len() == 0 && b.len() == 0 {
        assert(a =~= b);
    }
    if a.len() > 0 && b.len() > 0 && a[0] == b[0] {
        if a.drop_first() == b.drop_first() {
            assert(a.drop_first().len() == b.drop_first().len());
            assert forall|k: int| 0 <= k < a.len() implies a[k] == b[k] by {
                if k > 0 {
                    assert(a[k] == a.drop_first()[k - 1]);
                    assert(b[k] == b.drop_first()[k - 1]);
                }
            }
            assert(a =~= b);
        }
        lemma_text_lt_total(a.drop_first(), b.drop_first());
    }
}

/// Whether the text of `a` comes strictly before that of `b`.
pub fn text_less(a: &String, b: &String) -> (res: bool)
    ensures
        res == text_lt(a@, b@),
{
    let x = chars_of(a.as_str());
    let y = chars_of(b.as_str());
    let mut i: usize = 0;
    assert(x@.skip(0) =~= x@);
    assert(y@.skip(0) =~= y@);
    while i < x.len() && i < y.len() && x[i] == y[i]
        invariant
            i <= x@.len(),
            i <= y@.len(),
            x@ == a@,
            y@ == b@,
            text_lt(a@, b@) == text_lt(x@.skip(i as int), y@.skip(i as int)),
        decreases x.len() - i,
    {
        assert(x@.skip(i as int).drop_first() =~= x@.skip(i + 1));
        assert(y@.skip(i as int).drop_first() =~= y@.skip(i + 1));
        i += 1;
    }
    if i == x.len() {
        i < y.len()
    } else if i == y.len() {
        false
    } else {
        assert(x@.skip(i as int)[0] == x@[i as int]);
        assert(y@.skip(i as int)[0] == y@[i as int]);
        x[i] < y[i]
    }
}

/// The characters of `s`, in order.
pub fn chars_of(s: &str) -> (v: Vec<char>)
    ensures
        v@ == s@,
{
    let mut v: Vec<char> = Vec::new();
    for c in it: s.chars()
        invariant
            v@ == it.seq().take(it.index() as int),
            it.seq() == s@,
    {
        v.push(c);
    }
    v
}

/// Whether two character vectors hold the same characters.
pub fn chars_eq(a: &Vec<char>, b: &Vec<char>) -> (res: bool)
    ensures
        res == (a@ == b@),
{
    if a.len() != b.len() {
        return false;
    }
    let mut i: usize = 0;
    while i < a.len()
        invariant
            a.len() == b.len(),
            i <= a.len(),
            forall|k: int| 0 <= k < i ==> a@[k] == b@[k],
        decreases a.len() - i,
    {
        if a[i] != b[i] {
            return false;
        }
        i += 1;
    }
    assert(a@ =~= b@);
    true
}

/// The texts held by a vector of character vectors.
pub open spec fn words_view(v: Seq<Vec<char>>) -> Seq<Seq<char>> {
    v.map_values(|w: Vec<char>| w@)
}

/// Split a character vector on `sep`, as `str::split` does with a char pattern.
pub fn split_chars(s: &Vec<char>, sep: char) -> (words: Vec<Vec<char>>)
    ensures
        words_view(words@) == split_on(s@, sep),
{
    let mut words: Vec<Vec<char>> = Vec::new();
    let mut cur: Vec<char> = Vec::new();
    let mut i: usize = 0;
    while i < s.len()
        invariant
            i <= s.len(),
            words_view(words@).push(cur@) == split_on(s@.take(i as int), sep),
        decreases s.len() - i,
    {
        let c = s[i];
        let ghost before = split_on(s@.take(i as int), sep);
        assert(s@.take(i + 1).drop_last() =~= s@.take(i as int));
        assert(s@.take(i + 1).last() == c);
        if c == sep {
            let ghost old_words = words_view(words@);
            let ghost old_cur = cur@;
            words.push(cur);
            assert(words_view(words@) =~= old_words.push(old_cur));
            cur = Vec::new();
            assert(words_view(words@).push(cur@) =~= before.push(Seq::<char>::empty()));
        } else {
            let ghost old_cur = cur@;
            cur.push(c);
            assert(words_view(words@).push(cur@) =~= before.update(before.len() - 1, before.last().push(c)));
        }
        i += 1;
    }
    let ghost old_words = words_view(words@);
    let ghost old_cur = cur@;
    words.push(cur);
    assert(words_view(words@) =~= old_words.push(old_cur));
    assert(s@.take(s.len() as int) =~= s@);
    words
}

/// Append the characters of `src` to `dst`.
pub fn push_all(dst: &mut Vec<char>, src: &Vec<char>)
    ensures
        final(dst)@ == old(dst)@ + src@,
{
    let ghost start = dst@;
    let mut i: usize = 0;
    while i < src.len()
        invariant
            i <= src.len(),
            dst@ == start + src@.take(i as int),
        decreases src.len() - i,
    {
        dst.push(src[i]);
        i += 1;
        assert(dst@ =~= start + src@.take(i as int));
    }
    assert(src@.take(src.len() as int) =~= src@);
}

/// The texts held by a vector of strings.
pub open spec fn strings_view(v: Seq<String>) -> Seq<Seq<char>> {
    v.map_values(|s: String| s@)
}

/// The texts of each piece, as strings.
pub fn strings_of(words: Vec<Vec<char>>) -> (res: Vec<String>)
    ensures
        strings_view(res@) == words_view(words@),
{
    let mut res: Vec<String> = Vec::new();
    let mut i: usize = 0;
    while i < words.len()
        invariant
            i <= words.len(),
            res@.len() == i,
            forall|k: int| 0 <= k < i ==> (#[trigger] res@[k])@ == words@[k]@,
        decreases words.len() - i,
    {
        let mut w: Vec<char> = Vec::new();
        push_all(&mut w, &words[i]);
        assert(w@ =~= words@[i as int]@);
        let s = string_from_chars(w);
        res.push(s);
        i += 1;
    }
    assert(strings_view(res@) =~= words_view(words@));
    res
}

/// The text made of the given characters, collected by std's
/// `String::from_iter`, which appends them in order.
#[verifier::external_body]
pub fn string_from_chars(v: Vec<char>) -> (s: String)
    ensures
        s@ == v@,
{
    String::from_iter(v)
}

} // verus!
