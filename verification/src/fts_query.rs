//! Turning what a user typed into a full-text query that matches it as text.
//!
//! The full-text engine reads its query as an expression: `word:` filters a
//! column, `-word` negates, bare AND/OR/NOT are operators. `escape` keeps the
//! words, drops everything else, and quotes each word, so that nothing the
//! user typed is read as an operator. A query without a word becomes empty,
//! and callers then skip the search.
use vstd::prelude::*;
use vstd::string::*;

use crate::text;

verus! {

/// Whether `char::is_alphanumeric` holds of a character.
pub uninterp spec fn alphanumeric(c: char) -> bool;

/// Whether `char::is_whitespace` holds of a character.
pub uninterp spec fn whitespace(c: char) -> bool;

/// `char::is_alphanumeric`: a property of the character alone (the Unicode
/// properties Alphabetic and Numeric), under the name `alphanumeric`.
pub assume_specification[ char::is_alphanumeric ](c: char) -> (r: bool)
    ensures
        r == alphanumeric(c),
;

/// `char::is_whitespace`: a property of the character alone (the Unicode
/// property White_Space), under the name `whitespace`.
pub assume_specification[ char::is_whitespace ](c: char) -> (r: bool)
    ensures
        r == whitespace(c),
;

/// The character belongs to a word. A double quote and a space, which stand
/// between the terms of an escaped query, never do.
pub open spec fn in_word(c: char) -> bool {
    c != '"' && c != ' ' && alphanumeric(c) && !whitespace(c)
}

/// Which characters of `s` belong to a word.
pub open spec fn word_marks(s: Seq<char>) -> Seq<bool> {
    s.map_values(|c: char| in_word(c))
}

/// The words among the first `n` characters of `s`: its longest runs of marked
/// characters. The last word may still be growing.
pub open spec fn words_upto(s: Seq<char>, marks: Seq<bool>, n: nat) -> Seq<Seq<char>>
    decreases n,
{
    if n == 0 {
        Seq::empty()
    } else {
        let before = words_upto(s, marks, (n - 1) as nat);
        if !marks[n - 1] {
            before
        } else if n >= 2 && marks[n - 2] {
            before.drop_last().push(before.last().push(s[n - 1]))
        } else {
            before.push(seq![s[n - 1]])
        }
    }
}

/// The words of `s`.
pub open spec fn words_of(s: Seq<char>, marks: Seq<bool>) -> Seq<Seq<char>> {
    words_upto(s, marks, s.len())
}

/// The words, each between double quotes, with a space between two of them.
pub open spec fn quoted(words: Seq<Seq<char>>) -> Seq<char>
    decreases words.len(),
{
    if words.len() == 0 {
        Seq::empty()
    } else {
        let gap: Seq<char> = if words.len() == 1 {
            Seq::empty()
        } else {
            seq![' ']
        };
        quoted(words.drop_last()) + gap + seq!['"'] + words.last() + seq!['"']
    }
}

/// The query as quoted literal terms.
pub open spec fn escaped(query: Seq<char>) -> Seq<char> {
    quoted(words_of(query, word_marks(query)))
}

/// The words of `s`.
pub fn split_words(s: &str, marks: &Vec<bool>) -> (words: Vec<String>)
    requires
        marks.len() == s@.len(),
    ensures
        text::texts(words@) == words_of(s@, marks@),
{
    let chars = text::chars_of(s);
    let mut words: Vec<String> = Vec::new();
    let mut i: usize = 0;
    while i < chars.len()
        invariant
            chars@ == s@,
            marks.len() == s@.len(),
            i <= chars.len(),
            text::texts(words@) == words_upto(s@, marks@, i as nat),
            i > 0 && marks@[i - 1] ==> words.len() > 0,
        decreases chars.len() - i,
    {
        let ghost before = words@;
        if marks[i] {
            if i > 0 && marks[i - 1] {
                let mut word = words.pop().unwrap();
                let ghost held = word@;
                word.push(chars[i]);
                let ghost grown = word@;
                words.push(word);
                proof {
                    assert(text::texts(before).last() == held);
                    assert(text::texts(words@) =~= text::texts(before).drop_last().push(grown));
                }
            } else {
                let word = text::string_of(&chars, i, i + 1);
                proof {
                    assert(word@ =~= seq![chars@[i as int]]);
                }
                words.push(word);
                proof {
                    assert(text::texts(words@) =~= text::texts(before).push(word@));
                }
            }
        }
        i += 1;
    }
    words
}

/// The marked words of `query`, quoted and separated by spaces.
pub fn quoted_terms(query: &str, marks: &Vec<bool>) -> (out: String)
    requires
        marks.len() == query@.len(),
    ensures
        out@ == quoted(words_of(query@, marks@)),
{
    let words = split_words(query, marks);
    let mut out = String::new();
    let mut k: usize = 0;
    let ghost all = words_of(query@, marks@);
    while k < words.len()
        invariant
            k <= words.len(),
            text::texts(words@) == all,
            out@ == quoted(all.take(k as int)),
        decreases words.len() - k,
    {
        proof {
            assert(text::texts(words@)[k as int] == words@[k as int]@);
            assert(all.take(k + 1).drop_last() =~= all.take(k as int));
        }
        let ghost so_far = out@;
        if k > 0 {
            out.push(' ');
        }
        out.push('"');
        out.append(words[k].as_str());
        out.push('"');
        proof {
            let gap: Seq<char> = if k == 0 {
                Seq::empty()
            } else {
                seq![' ']
            };
            assert(out@ =~= so_far + gap + seq!['"'] + all[k as int] + seq!['"']);
        }
        k += 1;
    }
    proof {
        assert(all.take(all.len() as int) =~= all);
    }
    out
}

/// Rewrite `query` into a sequence of quoted literal terms.
pub fn escape(query: &str) -> (out: String)
    ensures
        out@ == escaped(query@),
{
    let chars = text::chars_of(query);
    let mut marks: Vec<bool> = Vec::new();
    let mut i: usize = 0;
    while i < chars.len()
        invariant
            chars@ == query@,
            i <= chars.len(),
            marks@ == word_marks(query@).take(i as int),
        decreases chars.len() - i,
    {
        let c = chars[i];
        marks.push(c != '"' && c != ' ' && c.is_alphanumeric() && !c.is_whitespace());
        proof {
            assert(word_marks(query@).take(i + 1) =~= word_marks(query@).take(i as int).push(
                word_marks(query@)[i as int],
            ));
        }
        i += 1;
    }
    proof {
        assert(word_marks(query@).take(i as int) =~= word_marks(query@));
    }
    quoted_terms(query, &marks)
}

proof fn lemma_words(s: Seq<char>, marks: Seq<bool>, n: nat)
    requires
        marks.len() == s.len(),
        n <= s.len(),
    ensures
        n > 0 && marks[n - 1] ==> words_upto(s, marks, n).len() > 0,
        forall|i: int|
            0 <= i < words_upto(s, marks, n).len() ==> (#[trigger] words_upto(s, marks, n)[i]).len()
                > 0,
        words_upto(s, marks, n).len() == 0 <==> forall|j: int| 0 <= j < n ==> !marks[j],
        forall|i: int, k: int|
            0 <= i < words_upto(s, marks, n).len() && 0 <= k < words_upto(s, marks, n)[i].len()
                ==> exists|j: int|
                0 <= j < n && marks[j] && s[j] == #[trigger] words_upto(s, marks, n)[i][k],
    decreases n,
{
    if n > 0 {
        lemma_words(s, marks, (n - 1) as nat);
        let before = words_upto(s, marks, (n - 1) as nat);
        let words = words_upto(s, marks, n);
        if marks[n - 1] {
            assert forall|i: int, k: int|
                0 <= i < words.len() && 0 <= k < words[i].len() implies exists|j: int|
                0 <= j < n && marks[j] && s[j] == #[trigger] words[i][k] by {
                if i < words.len() - 1 {
                    assert(words[i] == before[i]);
                    assert(before[i][k] == words[i][k]);
                } else if n >= 2 && marks[n - 2] {
                    if k < before.last().len() {
                        assert(before[before.len() - 1][k] == words[i][k]);
                    } else {
                        assert(s[n - 1] == words[i][k]);
                    }
                } else {
                    assert(s[n - 1] == words[i][k]);
                }
            }
        } else {
            assert(words == before);
            assert forall|i: int, k: int|
                0 <= i < words.len() && 0 <= k < words[i].len() implies exists|j: int|
                0 <= j < n && marks[j] && s[j] == #[trigger] words[i][k] by {
                assert(before[i][k] == words[i][k]);
            }
        }
    }
}

proof fn lemma_quoted_chars(words: Seq<Seq<char>>)
    ensures
        forall|p: int|
            0 <= p < quoted(words).len() ==> {
                let c = #[trigger] quoted(words)[p];
                c == '"' || c == ' ' || exists|i: int, k: int|
                    0 <= i < words.len() && 0 <= k < words[i].len() && words[i][k] == c
            },
    decreases words.len(),
{
    if words.len() > 0 {
        let head = words.drop_last();
        lemma_quoted_chars(head);
        let prefix = quoted(head);
        let gap: Seq<char> = if words.len() == 1 {
            Seq::empty()
        } else {
            seq![' ']
        };
        let out = quoted(words);
        assert(out == prefix + gap + seq!['"'] + words.last() + seq!['"']);
        assert forall|p: int| 0 <= p < out.len() implies {
            let c = #[trigger] out[p];
            c == '"' || c == ' ' || exists|i: int, k: int|
                0 <= i < words.len() && 0 <= k < words[i].len() && words[i][k] == c
        } by {
            let c = out[p];
            if p < prefix.len() {
                assert(prefix[p] == c);
                if c != '"' && c != ' ' {
                    let (i, k) = choose|i: int, k: int|
                        0 <= i < head.len() && 0 <= k < head[i].len() && head[i][k] == c;
                    assert(words[i][k] == c);
                }
            } else {
                let q = p - prefix.len() - gap.len() - 1;
                if 0 <= q < words.last().len() {
                    assert(words[words.len() - 1][q] == c);
                }
            }
        }
    }
}

/// An escaped query is empty exactly where the query holds no word.
pub proof fn law_escape_empty_iff(s: Seq<char>, marks: Seq<bool>)
    requires
        marks.len() == s.len(),
    ensures
        quoted(words_of(s, marks)).len() == 0 <==> forall|j: int| 0 <= j < s.len() ==> !marks[j],
{
    lemma_words(s, marks, s.len());
}

/// An escaped query holds double quotes, spaces and characters of words only,
/// so no operator of the query language gets through.
pub proof fn law_escape_is_literal(s: Seq<char>, marks: Seq<bool>)
    requires
        marks.len() == s.len(),
    ensures
        forall|p: int|
            0 <= p < quoted(words_of(s, marks)).len() ==> {
                let c = #[trigger] quoted(words_of(s, marks))[p];
                c == '"' || c == ' ' || exists|j: int| 0 <= j < s.len() && marks[j] && s[j] == c
            },
{
    lemma_words(s, marks, s.len());
    lemma_quoted_chars(words_of(s, marks));
    let words = words_of(s, marks);
    assert forall|p: int| 0 <= p < quoted(words).len() implies {
        let c = #[trigger] quoted(words)[p];
        c == '"' || c == ' ' || exists|j: int| 0 <= j < s.len() && marks[j] && s[j] == c
    } by {
        let c = quoted(words)[p];
        if c != '"' && c != ' ' {
            let (i, k) = choose|i: int, k: int|
                0 <= i < words.len() && 0 <= k < words[i].len() && words[i][k] == c;
            assert(words_upto(s, marks, s.len())[i][k] == c);
        }
    }
}

proof fn lemma_same_start(a: Seq<char>, b: Seq<char>, n: nat)
    requires
        n <= a.len(),
        n <= b.len(),
        a.take(n as int) == b.take(n as int),
    ensures
        words_upto(a, word_marks(a), n) == words_upto(b, word_marks(b), n),
    decreases n,
{
    if n > 0 {
        let m = (n - 1) as nat;
        assert(a.take(m as int) =~= a.take(n as int).take(m as int));
        assert(b.take(m as int) =~= b.take(n as int).take(m as int));
        lemma_same_start(a, b, m);
        assert(a[n - 1] == a.take(n as int)[n - 1]);
        assert(b[n - 1] == b.take(n as int)[n - 1]);
        if n >= 2 {
            assert(a[n - 2] == a.take(n as int)[n - 2]);
            assert(b[n - 2] == b.take(n as int)[n - 2]);
        }
    }
}

/// The words of a text with one more character.
proof fn lemma_one_more(s: Seq<char>, c: char)
    ensures
        ({
            let before = words_of(s, word_marks(s));
            words_of(s.push(c), word_marks(s.push(c))) == if !in_word(c) {
                before
            } else if s.len() > 0 && in_word(s.last()) {
                before.drop_last().push(before.last().push(c))
            } else {
                before.push(seq![c])
            }
        }),
{
    let t = s.push(c);
    assert(t.take(s.len() as int) =~= s.take(s.len() as int));
    lemma_same_start(t, s, s.len());
    if s.len() > 0 {
        assert(word_marks(t)[s.len() - 1] == in_word(s.last()));
    }
    assert(word_marks(t)[s.len() as int] == in_word(c));
}

/// A word behind a text that does not end within a word is one more word.
proof fn lemma_word_behind(s: Seq<char>, word: Seq<char>)
    requires
        s.len() == 0 || !in_word(s.last()),
        word.len() > 0,
        forall|k: int| 0 <= k < word.len() ==> in_word(#[trigger] word[k]),
    ensures
        words_of(s + word, word_marks(s + word)) == words_of(s, word_marks(s)).push(word),
    decreases word.len(),
{
    let head = word.drop_last();
    let words = words_of(s, word_marks(s));
    assert((s + word) =~= (s + head).push(word.last()));
    lemma_one_more(s + head, word.last());
    if head.len() == 0 {
        assert(s + head =~= s);
        assert(seq![word.last()] =~= word);
    } else {
        assert forall|k: int| 0 <= k < head.len() implies in_word(#[trigger] head[k]) by {
            assert(head[k] == word[k]);
        }
        lemma_word_behind(s, head);
        assert((s + head).last() == head.last());
        assert(words.push(head).drop_last() =~= words);
        assert(head.push(word.last()) =~= word);
    }
}

/// All characters of the words belong to words, and no word is empty.
spec fn proper(words: Seq<Seq<char>>) -> bool {
    forall|i: int|
        0 <= i < words.len() ==> (#[trigger] words[i]).len() > 0 && forall|k: int|
            0 <= k < words[i].len() ==> in_word(#[trigger] words[i][k])
}

/// The words of quoted words are those words.
proof fn lemma_quoted_words(words: Seq<Seq<char>>)
    requires
        proper(words),
    ensures
        words_of(quoted(words), word_marks(quoted(words))) == words,
        words.len() > 0 ==> quoted(words).len() > 0 && quoted(words).last() == '"',
    decreases words.len(),
{
    if words.len() == 0 {
        assert(words =~= Seq::empty());
    } else {
        let head = words.drop_last();
        let word = words.last();
        assert(proper(head)) by {
            assert forall|i: int| 0 <= i < head.len() implies (#[trigger] head[i]).len() > 0
                && forall|k: int| 0 <= k < head[i].len() ==> in_word(#[trigger] head[i][k]) by {
                assert(head[i] == words[i]);
            }
        }
        lemma_quoted_words(head);
        let prefix = quoted(head);
        let open = if words.len() == 1 {
            prefix.push('"')
        } else {
            prefix.push(' ').push('"')
        };
        lemma_one_more(prefix, ' ');
        lemma_one_more(prefix, '"');
        lemma_one_more(prefix.push(' '), '"');
        assert(words[words.len() - 1] == word);
        lemma_word_behind(open, word);
        lemma_one_more(open + word, '"');
        assert(quoted(words) =~= (open + word).push('"'));
        assert(head.push(word) =~= words);
    }
}

/// Escaping an escaped query changes nothing.
pub proof fn law_escaping_twice_changes_nothing(query: Seq<char>)
    ensures
        escaped(escaped(query)) == escaped(query),
{
    let marks = word_marks(query);
    let words = words_of(query, marks);
    lemma_words(query, marks, query.len());
    assert(proper(words)) by {
        assert forall|i: int| 0 <= i < words.len() implies (#[trigger] words[i]).len() > 0
            && forall|k: int| 0 <= k < words[i].len() ==> in_word(#[trigger] words[i][k]) by {
            assert forall|k: int| 0 <= k < words[i].len() implies in_word(
                #[trigger] words[i][k],
            ) by {
                let j = choose|j: int|
                    0 <= j < query.len() && marks[j] && query[j] == words_upto(
                        query,
                        marks,
                        query.len(),
                    )[i][k];
                assert(marks[j] == in_word(query[j]));
            }
        }
    }
    lemma_quoted_words(words);
}

/// A character that is not alphanumeric acts as a space: it separates words and
/// does nothing else.
pub proof fn law_punctuation_acts_as_a_space(a: Seq<char>, c: char, b: Seq<char>)
    ensures
        !alphanumeric(c) ==> escaped(a.push(c) + b) == escaped(a.push(' ') + b),
{
    if !alphanumeric(c) {
        lemma_separator(a, c, b);
    }
}

proof fn lemma_separator(a: Seq<char>, c: char, b: Seq<char>)
    requires
        !in_word(c),
    ensures
        words_of(a.push(c) + b, word_marks(a.push(c) + b)) == words_of(
            a.push(' ') + b,
            word_marks(a.push(' ') + b),
        ),
    decreases b.len(),
{
    let (s, t) = (a.push(c), a.push(' '));
    if b.len() == 0 {
        assert(s + b =~= s);
        assert(t + b =~= t);
        lemma_one_more(a, c);
        lemma_one_more(a, ' ');
    } else {
        let head = b.drop_last();
        lemma_separator(a, c, head);
        assert(s + b =~= (s + head).push(b.last()));
        assert(t + b =~= (t + head).push(b.last()));
        lemma_one_more(s + head, b.last());
        lemma_one_more(t + head, b.last());
        if head.len() > 0 {
            assert((s + head).last() == head.last());
            assert((t + head).last() == head.last());
        } else {
            assert((s + head).last() == c);
            assert((t + head).last() == ' ');
        }
    }
}

} // verus!
