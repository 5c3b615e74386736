//! What holds of cutting texts: into chunks, and into words.
use vstd::prelude::*;
use vstd::utf8::*;

use crate::chunking::{self, Pieces};
use crate::escaping;
use crate::fts_query;
use crate::hashing;
use crate::text;

verus! {

/// Parts with a separator between them.
pub open spec fn rejoined(parts: Seq<Seq<char>>, separator: Seq<char>) -> Seq<char>
    decreases parts.len(),
{
    if parts.len() == 0 {
        Seq::empty()
    } else if parts.len() == 1 {
        parts[0]
    } else {
        rejoined(parts.drop_last(), separator) + separator + parts.last()
    }
}

proof fn lemma_rejoined_front(first: Seq<char>, rest: Seq<Seq<char>>, separator: Seq<char>)
    requires
        rest.len() > 0,
    ensures
        rejoined(seq![first] + rest, separator) == first + separator + rejoined(rest, separator),
    decreases rest.len(),
{
    let all = seq![first] + rest;
    assert(all.last() == rest.last());
    if rest.len() == 1 {
        assert(all.drop_last() =~= seq![first]);
        assert(rejoined(seq![first], separator) == first);
        assert(rejoined(rest, separator) == rest[0]);
        assert(rejoined(all, separator) =~= first + separator + rest[0]);
    } else {
        assert(all.drop_last() =~= seq![first] + rest.drop_last());
        lemma_rejoined_front(first, rest.drop_last(), separator);
        assert(rejoined(all, separator) =~= first + separator + rejoined(rest, separator));
    }
}

/// A text that was split at a separator is its parts with the separator between
/// them, and no part holds it.
pub proof fn law_split_text_joins_back(s: Seq<char>, separator: Seq<char>)
    requires
        separator.len() > 0,
    ensures
        rejoined(text::split_on(s, separator), separator) == s,
        text::split_on(s, separator).len() > 0,
        forall|i: int|
            0 <= i < text::split_on(s, separator).len() ==> !text::occurs(
                #[trigger] text::split_on(s, separator)[i],
                separator,
            ),
    decreases s.len(),
{
    if text::occurs(s, separator) {
        let at = text::first_index(s, separator);
        text::lemma_first_exists(s, separator, choose|i: int| text::occurs_at(s, separator, i));
        let rest = s.skip(at + separator.len());
        law_split_text_joins_back(rest, separator);
        lemma_rejoined_front(s.take(at), text::split_on(rest, separator), separator);
        let head = s.take(at);
        assert(!text::occurs(head, separator)) by {
            if text::occurs(head, separator) {
                let i = choose|i: int| text::occurs_at(head, separator, i);
                assert(head.subrange(i, i + separator.len()) =~= s.subrange(
                    i,
                    i + separator.len(),
                ));
                assert(text::occurs_at(s, separator, i));
            }
        }
        let parts = text::split_on(s, separator);
        assert forall|i: int| 0 <= i < parts.len() implies !text::occurs(
            #[trigger] parts[i],
            separator,
        ) by {
            if i > 0 {
                assert(parts[i] == text::split_on(rest, separator)[i - 1]);
            }
        }
        assert(s =~= s.take(at) + separator + rest) by {
            assert forall|i: int| at <= i < at + separator.len() implies s[i] == separator[i
                - at] by {
                assert(s.subrange(at, at + separator.len())[i - at] == separator[i - at]);
            }
        }
    }
}

/// The pieces, the growing one last.
spec fn all_of(p: Pieces) -> Seq<Seq<char>> {
    p.flushed().closed
}

proof fn lemma_byte_len_append(a: Seq<char>, b: Seq<char>)
    ensures
        text::byte_len(a + b) == text::byte_len(a) + text::byte_len(b),
{
    text::lemma_encode_append(a, b);
}

/// No piece can take in the one behind it.
pub open spec fn is_greedy(parts: Seq<Seq<char>>, separator: Seq<char>, target: nat) -> bool {
    forall|i: int|
        0 <= i < parts.len() - 1 ==> text::byte_len(#[trigger] parts[i] + separator + parts[i + 1])
            > target
}

proof fn lemma_joined(p: Pieces, part: Seq<char>, separator: Seq<char>, target: nat)
    requires
        part.len() > 0,
        p.open.len() == 0 ==> p.closed.len() == 0,
        is_greedy(all_of(p), separator, target),
    ensures
        ({
            let q = p.joined(part, separator, target);
            &&& q.open.len() > 0
            &&& rejoined(all_of(q), separator) == if p.open.len() == 0 {
                part
            } else {
                rejoined(all_of(p), separator) + separator + part
            }
            &&& is_greedy(all_of(q), separator, target)
        }),
{
    let q = p.joined(part, separator, target);
    let (a, b) = (all_of(p), all_of(q));
    if p.open.len() == 0 {
        assert(b =~= seq![part]);
    } else {
        let whole = p.open + separator + part;
        if text::byte_len(whole) <= target {
            assert(b =~= p.closed.push(whole));
            assert(a =~= p.closed.push(p.open));
            assert(b.drop_last() =~= p.closed && a.drop_last() =~= p.closed);
            assert(rejoined(b, separator) =~= rejoined(a, separator) + separator + part);
            assert forall|i: int| 0 <= i < b.len() - 1 implies text::byte_len(
                #[trigger] b[i] + separator + b[i + 1],
            ) > target by {
                assert(a[i] == b[i]);
                assert(text::byte_len(a[i] + separator + a[i + 1]) > target);
                if i + 1 == b.len() - 1 {
                    assert(b[i] + separator + b[i + 1] =~= (a[i] + separator + a[i + 1]) + (
                    separator + part));
                    lemma_byte_len_append(a[i] + separator + a[i + 1], separator + part);
                }
            }
        } else {
            assert(b =~= a.push(part));
            assert(b.drop_last() =~= a);
            assert(a.len() > 0);
            assert(rejoined(b, separator) =~= rejoined(a, separator) + separator + part);
            assert forall|i: int| 0 <= i < b.len() - 1 implies text::byte_len(
                #[trigger] b[i] + separator + b[i + 1],
            ) > target by {
                assert(a[i] == b[i]);
                if i < a.len() - 1 {
                    assert(text::byte_len(a[i] + separator + a[i + 1]) > target);
                } else {
                    assert(b[i] + separator + b[i + 1] =~= whole);
                }
            }
        }
    }
}

proof fn lemma_paragraphs(parts: Seq<Seq<char>>, target: nat, n: nat)
    requires
        n <= parts.len(),
        forall|i: int|
            0 <= i < parts.len() ==> (#[trigger] parts[i]).len() > 0 && text::byte_len(parts[i])
                <= target,
    ensures
        ({
            let p = chunking::with_paragraphs(parts, target, n);
            &&& p.open.len() == 0 <==> n == 0
            &&& n == 0 ==> p.closed.len() == 0
            &&& rejoined(all_of(p), seq!['\n', '\n']) == rejoined(
                parts.take(n as int),
                seq!['\n', '\n'],
            )
            &&& is_greedy(all_of(p), seq!['\n', '\n'], target)
        }),
    decreases n,
{
    if n > 0 {
        lemma_paragraphs(parts, target, (n - 1) as nat);
        let p = chunking::with_paragraphs(parts, target, (n - 1) as nat);
        let gap = seq!['\n', '\n'];
        assert(parts[n - 1].len() > 0 && text::byte_len(parts[n - 1]) <= target);
        lemma_joined(p, parts[n - 1], gap, target);
        assert(parts.take(n as int).drop_last() =~= parts.take(n - 1));
        if n == 1 {
            assert(parts.take(1)[0] == parts[0]);
        }
    }
}

/// No part is empty, and each is within the budget.
pub open spec fn all_fit(parts: Seq<Seq<char>>, target: nat) -> bool {
    forall|i: int|
        0 <= i < parts.len() ==> (#[trigger] parts[i]).len() > 0 && text::byte_len(parts[i])
            <= target
}

/// Where every paragraph fits the budget and none is empty, the chunks are whole
/// paragraphs: joined by empty lines they are the text again. And they are as
/// large as can be: no chunk has room for the next.
pub proof fn law_chunks_are_whole_paragraphs(s: Seq<char>, target: nat)
    requires
        text::byte_len(s) > target,
        all_fit(text::split_on(s, seq!['\n', '\n']), target),
    ensures
        rejoined(chunking::chunks_of(s, target), seq!['\n', '\n']) == s,
        is_greedy(chunking::chunks_of(s, target), seq!['\n', '\n'], target),
{
    let parts = text::split_on(s, seq!['\n', '\n']);
    lemma_paragraphs(parts, target, parts.len());
    law_split_text_joins_back(s, seq!['\n', '\n']);
    assert(parts.take(parts.len() as int) =~= parts);
    if s.len() == 0 {
        assert(s =~= Seq::empty());
        assert(text::byte_len(s) == 0) by {
            reveal_with_fuel(encode_utf8, 1);
        }
    }
}

proof fn lemma_with_sentences(parts: Seq<Seq<char>>, target: nat, n: nat)
    requires
        n <= parts.len(),
        forall|i: int|
            0 <= i < parts.len() ==> (#[trigger] parts[i]).len() > 0 && text::byte_len(parts[i])
                <= target,
    ensures
        ({
            let p = chunking::with_sentences(Pieces::none(), parts, target, n);
            &&& p.open.len() == 0 <==> n == 0
            &&& n == 0 ==> p.closed.len() == 0
            &&& rejoined(all_of(p), seq![' ']) == rejoined(parts.take(n as int), seq![' '])
            &&& is_greedy(all_of(p), seq![' '], target)
        }),
    decreases n,
{
    if n > 0 {
        lemma_with_sentences(parts, target, (n - 1) as nat);
        let p = chunking::with_sentences(Pieces::none(), parts, target, (n - 1) as nat);
        assert(parts[n - 1].len() > 0 && text::byte_len(parts[n - 1]) <= target);
        lemma_joined(p, parts[n - 1], seq![' '], target);
        assert(parts.take(n as int).drop_last() =~= parts.take(n - 1));
        if n == 1 {
            assert(parts.take(1)[0] == parts[0]);
        }
    }
}

/// The sentences of a text that does not end with a space are the text again
/// when a space is put between them, and each but the last ends with a period.
pub proof fn law_sentences_join_back(s: Seq<char>)
    requires
        s.len() > 0 ==> s.last() != ' ',
    ensures
        rejoined(chunking::sentences(s), seq![' ']) == s,
        s.len() > 0 ==> chunking::sentences(s).len() > 0,
        forall|i: int|
            0 <= i < chunking::sentences(s).len() ==> (#[trigger] chunking::sentences(s)[i]).len()
                > 0,
        forall|i: int|
            0 <= i < chunking::sentences(s).len() - 1 ==> (#[trigger] chunking::sentences(
                s,
            )[i]).last() == '.',
    decreases s.len(),
{
    let stop = seq!['.', ' '];
    if text::occurs(s, stop) {
        let at = text::first_index(s, stop);
        text::lemma_first_exists(s, stop, choose|i: int| text::occurs_at(s, stop, i));
        let rest = s.skip(at + 2);
        assert(s.subrange(at, at + 2)[0] == '.' && s.subrange(at, at + 2)[1] == ' ');
        assert(s[at] == '.' && s[at + 1] == ' ');
        assert(rest.len() > 0) by {
            if rest.len() == 0 {
                assert(s.last() == s[at + 1]);
            }
        }
        assert(rest.last() == s.last());
        law_sentences_join_back(rest);
        let more = chunking::sentences(rest);
        let all = seq![s.take(at + 1)] + more;
        lemma_rejoined_front(s.take(at + 1), more, seq![' ']);
        assert(s =~= s.take(at + 1) + seq![' '] + rest);
        assert forall|i: int| 0 <= i < all.len() - 1 implies (#[trigger] all[i]).last() == '.' by {
            if i > 0 {
                assert(all[i] == more[i - 1]);
            }
        }
    } else if s.len() == 0 {
        assert(s =~= Seq::empty());
    }
}

/// A paragraph that does not fit the budget is cut between sentences where each
/// of them does: joined by spaces the chunks are the text again, and no chunk
/// has room for the next.
pub proof fn law_long_paragraph_is_cut_between_sentences(s: Seq<char>, target: nat)
    requires
        text::byte_len(s) > target,
        !text::occurs(s, seq!['\n', '\n']),
        s.len() > 0 && s.last() != ' ',
        forall|i: int|
            0 <= i < chunking::sentences(s).len() ==> text::byte_len(
                #[trigger] chunking::sentences(s)[i],
            ) <= target,
    ensures
        rejoined(chunking::chunks_of(s, target), seq![' ']) == s,
        is_greedy(chunking::chunks_of(s, target), seq![' '], target),
{
    let parts = chunking::sentences(s);
    law_sentences_join_back(s);
    lemma_with_sentences(parts, target, parts.len());
    assert(parts.take(parts.len() as int) =~= parts);
    let whole = text::split_on(s, seq!['\n', '\n']);
    assert(whole =~= seq![s]);
    reveal_with_fuel(chunking::with_paragraphs, 2);
    assert(Pieces::none().flushed() == Pieces::none());
    assert(chunking::with_paragraphs(whole, target, 1) == chunking::with_sentences(
        Pieces::none(),
        parts,
        target,
        parts.len(),
    ));
}

/// The marked characters among the first `n`, in order.
pub open spec fn marked(s: Seq<char>, marks: Seq<bool>, n: nat) -> Seq<char>
    decreases n,
{
    if n == 0 {
        Seq::empty()
    } else if marks[n - 1] {
        marked(s, marks, (n - 1) as nat).push(s[n - 1])
    } else {
        marked(s, marks, (n - 1) as nat)
    }
}

/// How many runs of marked characters begin among the first `n`.
pub open spec fn runs(marks: Seq<bool>, n: nat) -> nat
    decreases n,
{
    if n == 0 {
        0
    } else {
        runs(marks, (n - 1) as nat) + if marks[n - 1] && (n == 1 || !marks[n - 2]) {
            1nat
        } else {
            0nat
        }
    }
}

/// The words of a text are its runs of marked characters: one for each run, none
/// empty, and together all marked characters in order.
pub proof fn law_words_are_runs(s: Seq<char>, marks: Seq<bool>, n: nat)
    requires
        n <= s.len(),
        marks.len() == s.len(),
    ensures
        ({
            let words = fts_query::words_upto(s, marks, n);
            &&& text::concat(words) == marked(s, marks, n)
            &&& words.len() == runs(marks, n)
            &&& n > 0 && marks[n - 1] ==> words.len() > 0
            &&& forall|i: int| 0 <= i < words.len() ==> (#[trigger] words[i]).len() > 0
        }),
    decreases n,
{
    if n > 0 {
        let m = (n - 1) as nat;
        law_words_are_runs(s, marks, m);
        let before = fts_query::words_upto(s, marks, m);
        let words = fts_query::words_upto(s, marks, n);
        if marks[n - 1] {
            if n >= 2 && marks[n - 2] {
                let grown = before.last().push(s[n - 1]);
                text::lemma_concat_push(before.drop_last(), grown);
                assert(before =~= before.drop_last().push(before.last()));
                text::lemma_concat_push(before.drop_last(), before.last());
                assert(text::concat(words) =~= marked(s, marks, n));
                assert forall|i: int| 0 <= i < words.len() implies (#[trigger] words[i]).len()
                    > 0 by {
                    if i < before.len() - 1 {
                        assert(words[i] == before[i]);
                    }
                }
            } else {
                text::lemma_concat_push(before, seq![s[n - 1]]);
                assert(text::concat(words) =~= marked(s, marks, n));
                assert forall|i: int| 0 <= i < words.len() implies (#[trigger] words[i]).len()
                    > 0 by {
                    if i < before.len() {
                        assert(words[i] == before[i]);
                    }
                }
            }
        }
    }
}

/// Terms of a query are its words in quotes, one space between them.
pub proof fn law_terms_are_quoted_words(words: Seq<Seq<char>>)
    ensures
        fts_query::quoted(words) == rejoined(
            words.map_values(|w: Seq<char>| seq!['"'] + w + seq!['"']),
            seq![' '],
        ),
    decreases words.len(),
{
    let quote = |w: Seq<char>| seq!['"'] + w + seq!['"'];
    let all = words.map_values(quote);
    if words.len() > 0 {
        law_terms_are_quoted_words(words.drop_last());
        assert(all.drop_last() =~= words.drop_last().map_values(quote));
        assert(all.last() == quote(words.last()));
        if words.len() == 1 {
            assert(fts_query::quoted(words.drop_last()) =~= Seq::empty());
            assert(fts_query::quoted(words) =~= all[0]);
        } else {
            assert(fts_query::quoted(words) =~= rejoined(all, seq![' ']));
        }
    }
}

proof fn lemma_cut(s: Seq<char>, target: nat, n: nat)
    requires
        n <= s.len(),
    ensures
        ({
            let p = chunking::cut(s, target, n);
            let all = all_of(p);
            &&& n > 0 ==> p.open.len() > 0
            &&& n == 0 ==> p.open.len() == 0 && p.closed.len() == 0
            &&& text::concat(all) == s.take(n as int)
            &&& forall|i: int| 0 <= i < all.len() ==> (#[trigger] all[i]).len() > 0
            &&& forall|i: int|
                0 <= i < all.len() - 1 ==> text::byte_len(#[trigger] all[i]) + text::char_width(
                    all[i + 1][0],
                ) > target
        }),
    decreases n,
{
    let p = chunking::cut(s, target, n);
    let all = all_of(p);
    if n == 0 {
        assert(s.take(0) =~= Seq::empty());
    } else {
        let m = (n - 1) as nat;
        lemma_cut(s, target, m);
        let before = chunking::cut(s, target, m);
        let old = all_of(before);
        let c = s[n - 1];
        assert(s.take(n as int) =~= s.take(n - 1).push(c));
        if text::byte_len(before.open) + text::char_width(c) > target {
            assert(all =~= old.push(seq![c]));
            text::lemma_concat_push(old, seq![c]);
            assert(text::concat(all) =~= s.take(n as int));
            assert forall|i: int| 0 <= i < all.len() - 1 implies text::byte_len(#[trigger] all[i])
                + text::char_width(all[i + 1][0]) > target by {
                assert(all[i] == old[i]);
                if i < old.len() - 1 {
                    assert(text::byte_len(old[i]) + text::char_width(old[i + 1][0]) > target);
                } else {
                    assert(m > 0);
                    assert(old[i] == before.open);
                }
            }
        } else {
            let grown = before.open.push(c);
            assert(all =~= before.closed.push(grown));
            text::lemma_concat_push(before.closed, grown);
            if m > 0 {
                assert(old =~= before.closed.push(before.open));
                text::lemma_concat_push(before.closed, before.open);
            } else {
                assert(old =~= before.closed);
                assert(before.open =~= Seq::empty());
            }
            assert(text::concat(all) =~= s.take(n as int));
            assert forall|i: int| 0 <= i < all.len() - 1 implies text::byte_len(#[trigger] all[i])
                + text::char_width(all[i + 1][0]) > target by {
                assert(m > 0);
                assert(all[i] == old[i]);
                assert(text::byte_len(old[i]) + text::char_width(old[i + 1][0]) > target);
                if i + 1 == all.len() - 1 {
                    assert(grown[0] == before.open[0]);
                }
            }
            assert forall|i: int| 0 <= i < all.len() implies (#[trigger] all[i]).len() > 0 by {
                if i < before.closed.len() {
                    assert(all[i] == old[i]);
                }
            }
        }
    }
}

/// A text that is cut anywhere loses nothing: its pieces one after another are
/// the text, none is empty, and none has room for the character behind it.
pub proof fn law_hard_pieces_are_full(s: Seq<char>, target: nat)
    ensures
        ({
            let all = chunking::hard_pieces(s, target);
            &&& text::concat(all) == s
            &&& forall|i: int| 0 <= i < all.len() ==> (#[trigger] all[i]).len() > 0
            &&& forall|i: int|
                0 <= i < all.len() - 1 ==> text::byte_len(#[trigger] all[i]) + text::char_width(
                    all[i + 1][0],
                ) > target
        }),
{
    lemma_cut(s, target, s.len());
    assert(s.take(s.len() as int) =~= s);
}

/// A query is recognised by its words, in small letters and with one space
/// between them: white space divides words, and nothing else of it counts.
pub proof fn law_query_is_recognised_by_its_words(s: Seq<char>)
    ensures
        ({
            let solid = s.map_values(|c: char| !fts_query::whitespace(c));
            let words = fts_query::words_upto(s, solid, s.len());
            hashing::query_hash_of(s) == hashing::blake3_hex_of(
                encode_utf8(hashing::lowercase_of(rejoined(words, seq![' ']))),
            )
        }),
{
    let words = fts_query::words_of(s, hashing::solid_marks(s));
    lemma_joined_by(words);
    assert(hashing::solid_marks(s) =~= s.map_values(|c: char| !fts_query::whitespace(c)));
}

proof fn lemma_joined_by(words: Seq<Seq<char>>)
    ensures
        escaping::joined_by(words, ' ') == rejoined(words, seq![' ']),
    decreases words.len(),
{
    if words.len() > 1 {
        lemma_joined_by(words.drop_last());
    }
}

} // verus!
