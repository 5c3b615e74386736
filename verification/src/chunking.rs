//! Splitting a text into pieces that stay within a byte budget.
//!
//! Paragraph boundaries are preferred, then sentence boundaries; a sentence
//! that alone exceeds the budget is cut between characters.
use vstd::prelude::*;
use vstd::string::*;
use vstd::utf8::*;

use crate::text;

verus! {

/// Pieces already closed, and the piece that is still growing.
pub struct Pieces {
    pub closed: Seq<Seq<char>>,
    pub open: Seq<char>,
}

impl Pieces {
    pub open spec fn none() -> Pieces {
        Pieces { closed: Seq::empty(), open: Seq::empty() }
    }

    /// Close the growing piece, unless it is empty.
    pub open spec fn flushed(self) -> Pieces {
        if self.open.len() == 0 {
            self
        } else {
            Pieces { closed: self.closed.push(self.open), open: Seq::empty() }
        }
    }

    /// Add `part` to the growing piece, `separator` between them, where the
    /// whole stays within `target` bytes; start a new piece with it otherwise.
    pub open spec fn joined(self, part: Seq<char>, separator: Seq<char>, target: nat) -> Pieces {
        let whole = if self.open.len() == 0 {
            part
        } else {
            self.open + separator + part
        };
        if text::byte_len(whole) <= target {
            Pieces { closed: self.closed, open: whole }
        } else {
            Pieces { closed: self.flushed().closed, open: part }
        }
    }
}

/// The first `n` characters of `s`, cut greedily: a character that would take
/// the growing piece over `target` bytes starts a new one.
pub open spec fn cut(s: Seq<char>, target: nat, n: nat) -> Pieces
    decreases n,
{
    if n == 0 {
        Pieces::none()
    } else {
        let before = cut(s, target, (n - 1) as nat);
        let c = s[n - 1];
        if text::byte_len(before.open) + text::char_width(c) > target {
            let closed = before.flushed();
            Pieces { closed: closed.closed, open: seq![c] }
        } else {
            Pieces { closed: before.closed, open: before.open.push(c) }
        }
    }
}

/// `s` cut between characters into pieces of at most `target` bytes.
pub open spec fn hard_pieces(s: Seq<char>, target: nat) -> Seq<Seq<char>> {
    cut(s, target, s.len()).flushed().closed
}

/// The sentences of `s`: each ends with a period that a space follows, and the
/// space is dropped. What stands after the last such period is a sentence too.
pub open spec fn sentences(s: Seq<char>) -> Seq<Seq<char>>
    decreases s.len(),
{
    let stop = seq!['.', ' '];
    if text::occurs(s, stop) {
        let at = text::first_index(s, stop);
        proof {
            text::lemma_first_exists(s, stop, choose|i: int| text::occurs_at(s, stop, i));
        }
        seq![s.take(at + 1)] + sentences(s.skip(at + 2))
    } else if s.len() == 0 {
        Seq::empty()
    } else {
        seq![s]
    }
}

/// The pieces after the first `n` of `parts` were added as sentences.
pub open spec fn with_sentences(
    pieces: Pieces,
    parts: Seq<Seq<char>>,
    target: nat,
    n: nat,
) -> Pieces
    decreases n,
{
    if n == 0 {
        pieces
    } else {
        let before = with_sentences(pieces, parts, target, (n - 1) as nat);
        let sentence = parts[n - 1];
        if text::byte_len(sentence) <= target {
            before.joined(sentence, seq![' '], target)
        } else {
            Pieces {
                closed: before.flushed().closed + hard_pieces(sentence, target),
                open: Seq::empty(),
            }
        }
    }
}

/// The pieces after the first `n` of `parts` were added as paragraphs. An
/// empty paragraph adds nothing.
pub open spec fn with_paragraphs(parts: Seq<Seq<char>>, target: nat, n: nat) -> Pieces
    decreases n,
{
    if n == 0 {
        Pieces::none()
    } else {
        let before = with_paragraphs(parts, target, (n - 1) as nat);
        let paragraph = parts[n - 1];
        if paragraph.len() == 0 {
            before
        } else if text::byte_len(paragraph) <= target {
            before.joined(paragraph, seq!['\n', '\n'], target)
        } else {
            let parts = sentences(paragraph);
            with_sentences(before.flushed(), parts, target, parts.len())
        }
    }
}

/// The chunks of `s`: `s` itself where it fits `target` bytes, and otherwise
/// its paragraphs, gathered greedily.
pub open spec fn chunks_of(s: Seq<char>, target: nat) -> Seq<Seq<char>> {
    if s.len() == 0 {
        Seq::empty()
    } else if text::byte_len(s) <= target {
        seq![s]
    } else {
        let parts = text::split_on(s, seq!['\n', '\n']);
        with_paragraphs(parts, target, parts.len()).flushed().closed
    }
}

/// The characters of `s` that are neither a space nor a line break.
pub open spec fn visible(s: Seq<char>) -> Seq<char> {
    s.filter(|c: char| c != ' ' && c != '\n')
}

/// A chunk is never empty, and it exceeds `target` bytes only where it is a
/// single character that does.
pub open spec fn fits(chunk: Seq<char>, target: nat) -> bool {
    chunk.len() > 0 && (text::byte_len(chunk) <= target || chunk.len() == 1)
}

impl Pieces {
    /// Every piece fits, the growing one unless it is empty.
    pub open spec fn fit(self, target: nat) -> bool {
        &&& forall|i: int| 0 <= i < self.closed.len() ==> fits(#[trigger] self.closed[i], target)
        &&& self.open.len() > 0 ==> fits(self.open, target)
    }

    /// The text of all pieces, the growing one last.
    pub open spec fn whole(self) -> Seq<char> {
        text::concat(self.closed) + self.open
    }
}

/// Every chunk is non-empty and within the budget, save for a single character
/// that alone exceeds it.
pub proof fn law_chunks_fit(s: Seq<char>, target: nat)
    ensures
        forall|i: int|
            0 <= i < chunks_of(s, target).len() ==> fits(#[trigger] chunks_of(s, target)[i], target),
{
    if s.len() > 0 && text::byte_len(s) > target {
        let parts = text::split_on(s, seq!['\n', '\n']);
        lemma_paragraphs_fit(parts, target, parts.len());
    }
}

/// Chunking loses nothing but spaces and line breaks: the other characters
/// come out in the order in which they stand in the text.
pub proof fn law_chunks_keep_text(s: Seq<char>, target: nat)
    ensures
        visible(text::concat(chunks_of(s, target))) == visible(s),
{
    if s.len() == 0 {
        assert(s =~= Seq::empty());
    } else if text::byte_len(s) <= target {
        text::lemma_concat_push(Seq::empty(), s);
        assert(Seq::empty().push(s) =~= seq![s]);
        assert(text::concat(seq![s]) =~= s);
    } else {
        let parts = text::split_on(s, seq!['\n', '\n']);
        let pieces = with_paragraphs(parts, target, parts.len());
        lemma_paragraphs_visible(parts, target, parts.len());
        assert(parts.take(parts.len() as int) =~= parts);
        lemma_split_visible(s);
        lemma_flushed_whole(pieces);
        assert(pieces.flushed().open.len() == 0);
        assert(pieces.flushed().whole() =~= text::concat(pieces.flushed().closed));
    }
}

/// A text that fits the budget is its own only chunk.
pub proof fn law_short_text_is_one_chunk(s: Seq<char>, target: nat)
    requires
        0 < s.len(),
        text::byte_len(s) <= target,
    ensures
        chunks_of(s, target) == seq![s],
{
}

proof fn lemma_visible_append(a: Seq<char>, b: Seq<char>)
    ensures
        visible(a + b) == visible(a) + visible(b),
{
    Seq::filter_distributes_over_add(a, b, |c: char| c != ' ' && c != '\n');
}

proof fn lemma_visible_blank(s: Seq<char>)
    requires
        forall|i: int| 0 <= i < s.len() ==> s[i] == ' ' || s[i] == '\n',
    ensures
        visible(s) == Seq::<char>::empty(),
    decreases s.len(),
{
    reveal(Seq::filter);
    if s.len() > 0 {
        lemma_visible_blank(s.drop_last());
    }
}

proof fn lemma_flushed_whole(p: Pieces)
    ensures
        p.flushed().whole() == p.whole(),
{
    if p.open.len() > 0 {
        text::lemma_concat_push(p.closed, p.open);
        assert(p.flushed().whole() =~= p.whole());
    }
}

proof fn lemma_joined_visible(p: Pieces, part: Seq<char>, separator: Seq<char>, target: nat)
    requires
        forall|i: int| 0 <= i < separator.len() ==> separator[i] == ' ' || separator[i] == '\n',
    ensures
        visible(p.joined(part, separator, target).whole()) == visible(p.whole()) + visible(part),
{
    let q = p.joined(part, separator, target);
    lemma_visible_append(p.whole(), part);
    if p.open.len() == 0 {
        assert(q.whole() =~= p.whole() + part);
    } else if text::byte_len(p.open + separator + part) <= target {
        assert(q.whole() =~= p.whole() + separator + part);
        lemma_visible_blank(separator);
        lemma_visible_append(p.whole(), separator);
        lemma_visible_append(p.whole() + separator, part);
        assert(visible(p.whole()) + visible(separator) =~= visible(p.whole()));
    } else {
        lemma_flushed_whole(p);
        assert(q.whole() =~= p.flushed().whole() + part);
    }
}

proof fn lemma_cut_whole(s: Seq<char>, target: nat, n: nat)
    requires
        n <= s.len(),
    ensures
        cut(s, target, n).whole() == s.take(n as int),
    decreases n,
{
    if n == 0 {
        assert(cut(s, target, n).whole() =~= s.take(0));
    } else {
        let before = cut(s, target, (n - 1) as nat);
        lemma_cut_whole(s, target, (n - 1) as nat);
        lemma_flushed_whole(before);
        assert(s.take(n as int) =~= s.take(n - 1).push(s[n - 1]));
        if before.open.len() > 0 {
            assert(cut(s, target, n).whole() =~= before.whole().push(s[n - 1]));
        } else {
            assert(before.open =~= Seq::<char>::empty());
            assert(cut(s, target, n).whole() =~= before.whole().push(s[n - 1]));
        }
    }
}

proof fn lemma_cut_fit(s: Seq<char>, target: nat, n: nat)
    requires
        n <= s.len(),
    ensures
        cut(s, target, n).fit(target),
    decreases n,
{
    if n > 0 {
        let before = cut(s, target, (n - 1) as nat);
        lemma_cut_fit(s, target, (n - 1) as nat);
        text::lemma_byte_len_push(before.open, s[n - 1]);
    }
}

proof fn lemma_hard_pieces(s: Seq<char>, target: nat)
    ensures
        text::concat(hard_pieces(s, target)) == s,
        (Pieces { closed: hard_pieces(s, target), open: Seq::empty() }).fit(target),
{
    let pieces = cut(s, target, s.len());
    lemma_cut_whole(s, target, s.len());
    lemma_cut_fit(s, target, s.len());
    lemma_flushed_whole(pieces);
    assert(s.take(s.len() as int) =~= s);
    assert(pieces.flushed().open.len() == 0);
    assert(pieces.flushed().whole() =~= text::concat(pieces.flushed().closed));
}

proof fn lemma_sentences_visible(s: Seq<char>)
    ensures
        visible(text::concat(sentences(s))) == visible(s),
        forall|i: int| 0 <= i < sentences(s).len() ==> (#[trigger] sentences(s)[i]).len() > 0,
    decreases s.len(),
{
    let stop = seq!['.', ' '];
    if text::occurs(s, stop) {
        let at = text::first_index(s, stop);
        text::lemma_first_exists(s, stop, choose|i: int| text::occurs_at(s, stop, i));
        let rest = sentences(s.skip(at + 2));
        lemma_sentences_visible(s.skip(at + 2));
        text::lemma_concat_append(seq![s.take(at + 1)], rest);
        text::lemma_concat_push(Seq::empty(), s.take(at + 1));
        assert(Seq::empty().push(s.take(at + 1)) =~= seq![s.take(at + 1)]);
        assert(text::concat(seq![s.take(at + 1)]) =~= s.take(at + 1));
        lemma_visible_append(s.take(at + 1), text::concat(rest));
        assert(s.subrange(at, at + 2)[1] == ' ');
        lemma_visible_blank(seq![' ']);
        assert(s =~= s.take(at + 1) + seq![' '] + s.skip(at + 2));
        lemma_visible_append(s.take(at + 1), seq![' ']);
        lemma_visible_append(s.take(at + 1) + seq![' '], s.skip(at + 2));
        assert(visible(s.take(at + 1)) + visible(seq![' ']) =~= visible(s.take(at + 1)));
    } else if s.len() > 0 {
        text::lemma_concat_push(Seq::empty(), s);
        assert(Seq::empty().push(s) =~= seq![s]);
        assert(text::concat(seq![s]) =~= s);
    } else {
        assert(s =~= Seq::empty());
    }
}

proof fn lemma_split_visible(s: Seq<char>)
    ensures
        visible(text::concat(text::split_on(s, seq!['\n', '\n']))) == visible(s),
    decreases s.len(),
{
    let gap = seq!['\n', '\n'];
    if text::occurs(s, gap) {
        let at = text::first_index(s, gap);
        text::lemma_first_exists(s, gap, choose|i: int| text::occurs_at(s, gap, i));
        let rest = text::split_on(s.skip(at + 2), gap);
        lemma_split_visible(s.skip(at + 2));
        text::lemma_concat_append(seq![s.take(at)], rest);
        text::lemma_concat_push(Seq::empty(), s.take(at));
        assert(Seq::empty().push(s.take(at)) =~= seq![s.take(at)]);
        assert(text::concat(seq![s.take(at)]) =~= s.take(at));
        lemma_visible_append(s.take(at), text::concat(rest));
        lemma_visible_blank(gap);
        assert(s =~= s.take(at) + s.subrange(at, at + 2) + s.skip(at + 2));
        lemma_visible_append(s.take(at), gap);
        lemma_visible_append(s.take(at) + gap, s.skip(at + 2));
        assert(visible(s.take(at)) + visible(gap) =~= visible(s.take(at)));
    } else {
        text::lemma_concat_push(Seq::empty(), s);
        assert(Seq::empty().push(s) =~= seq![s]);
        assert(text::concat(seq![s]) =~= s);
    }
}

proof fn lemma_with_sentences_visible(p: Pieces, parts: Seq<Seq<char>>, target: nat, n: nat)
    requires
        n <= parts.len(),
    ensures
        visible(with_sentences(p, parts, target, n).whole()) == visible(p.whole()) + visible(
            text::concat(parts.take(n as int)),
        ),
    decreases n,
{
    if n == 0 {
        assert(visible(text::concat(parts.take(0))) =~= Seq::<char>::empty()) by {
            reveal(Seq::filter);
        }
        assert(visible(p.whole()) + Seq::<char>::empty() =~= visible(p.whole()));
    } else {
        let before = with_sentences(p, parts, target, (n - 1) as nat);
        let sentence = parts[n - 1];
        lemma_with_sentences_visible(p, parts, target, (n - 1) as nat);
        assert(parts.take(n as int) =~= parts.take(n - 1).push(sentence));
        text::lemma_concat_push(parts.take(n - 1), sentence);
        lemma_visible_append(text::concat(parts.take(n - 1)), sentence);
        if text::byte_len(sentence) <= target {
            lemma_joined_visible(before, sentence, seq![' '], target);
        } else {
            lemma_hard_pieces(sentence, target);
            lemma_flushed_whole(before);
            text::lemma_concat_append(before.flushed().closed, hard_pieces(sentence, target));
            assert(before.flushed().open.len() == 0);
            assert(with_sentences(p, parts, target, n).whole() =~= before.flushed().whole()
                + sentence);
            lemma_visible_append(before.whole(), sentence);
        }
        assert(visible(with_sentences(p, parts, target, n).whole()) =~= visible(p.whole())
            + visible(text::concat(parts.take(n as int))));
    }
}

proof fn lemma_with_sentences_fit(p: Pieces, parts: Seq<Seq<char>>, target: nat, n: nat)
    requires
        n <= parts.len(),
        p.fit(target),
        forall|i: int| 0 <= i < parts.len() ==> (#[trigger] parts[i]).len() > 0,
    ensures
        with_sentences(p, parts, target, n).fit(target),
    decreases n,
{
    if n > 0 {
        lemma_with_sentences_fit(p, parts, target, (n - 1) as nat);
        lemma_hard_pieces(parts[n - 1], target);
    }
}

proof fn lemma_paragraphs_visible(parts: Seq<Seq<char>>, target: nat, n: nat)
    requires
        n <= parts.len(),
    ensures
        visible(with_paragraphs(parts, target, n).whole()) == visible(
            text::concat(parts.take(n as int)),
        ),
    decreases n,
{
    if n == 0 {
        assert(with_paragraphs(parts, target, n).whole() =~= text::concat(parts.take(0)));
    } else {
        let before = with_paragraphs(parts, target, (n - 1) as nat);
        let paragraph = parts[n - 1];
        lemma_paragraphs_visible(parts, target, (n - 1) as nat);
        assert(parts.take(n as int) =~= parts.take(n - 1).push(paragraph));
        text::lemma_concat_push(parts.take(n - 1), paragraph);
        lemma_visible_append(text::concat(parts.take(n - 1)), paragraph);
        if paragraph.len() == 0 {
            assert(text::concat(parts.take(n as int)) =~= text::concat(parts.take(n - 1)));
        } else if text::byte_len(paragraph) <= target {
            lemma_joined_visible(before, paragraph, seq!['\n', '\n'], target);
        } else {
            let inner = sentences(paragraph);
            lemma_flushed_whole(before);
            lemma_with_sentences_visible(before.flushed(), inner, target, inner.len());
            assert(inner.take(inner.len() as int) =~= inner);
            lemma_sentences_visible(paragraph);
        }
    }
}

proof fn lemma_paragraphs_fit(parts: Seq<Seq<char>>, target: nat, n: nat)
    requires
        n <= parts.len(),
    ensures
        with_paragraphs(parts, target, n).fit(target),
    decreases n,
{
    if n > 0 {
        lemma_paragraphs_fit(parts, target, (n - 1) as nat);
        let before = with_paragraphs(parts, target, (n - 1) as nat);
        let paragraph = parts[n - 1];
        if paragraph.len() > 0 && text::byte_len(paragraph) > target {
            lemma_sentences_visible(paragraph);
            lemma_with_sentences_fit(
                before.flushed(),
                sentences(paragraph),
                target,
                sentences(paragraph).len(),
            );
        }
    }
}

/// Split on `. ` (sentence boundary), preserving the period.
pub fn split_sentences(s: &str) -> (out: Vec<String>)
    ensures
        text::texts(out@) == sentences(s@),
{
    let chars = text::chars_of(s);
    let stop: Vec<char> = vec!['.', ' '];
    let mut out: Vec<String> = Vec::new();
    let mut start: usize = 0;
    proof {
        assert(stop@ =~= seq!['.', ' ']);
        assert(chars@.skip(0) =~= chars@);
        assert(text::texts(out@) + sentences(s@) =~= sentences(s@));
    }
    loop
        invariant
            chars@ == s@,
            stop@ == seq!['.', ' '],
            start <= chars.len(),
            text::texts(out@) + sentences(chars@.skip(start as int)) == sentences(s@),
        decreases chars.len() - start,
    {
        let ghost rest = chars@.skip(start as int);
        let ghost before = out@;
        match text::find_from(&chars, &stop, start) {
            Some(at) => {
                let sentence = text::string_of(&chars, start, at + 1);
                proof {
                    text::lemma_first_unique(rest, stop@, at - start);
                    assert(sentence@ =~= rest.take(at - start + 1));
                    assert(rest.skip(at - start + 2) =~= chars@.skip(at + 2));
                }
                out.push(sentence);
                start = at + 2;
                proof {
                    assert(text::texts(out@) =~= text::texts(before).push(sentence@));
                    assert(text::texts(out@) + sentences(chars@.skip(start as int))
                        =~= text::texts(before) + (seq![sentence@] + sentences(
                        chars@.skip(start as int),
                    )));
                }
            },
            None => {
                if start < chars.len() {
                    let sentence = text::string_of(&chars, start, chars.len());
                    out.push(sentence);
                    proof {
                        assert(sentence@ =~= rest);
                        assert(text::texts(out@) =~= text::texts(before) + seq![rest]);
                    }
                } else {
                    proof {
                        assert(text::texts(out@) + Seq::<Seq<char>>::empty() =~= text::texts(out@));
                    }
                }
                return out;
            },
        }
    }
}

/// UTF-8-safe cut of `s` into pieces of at most `target` bytes.
pub fn hard_split(s: &str, target: usize) -> (out: Vec<String>)
    ensures
        text::texts(out@) == hard_pieces(s@, target as nat),
{
    let mut out: Vec<String> = Vec::new();
    let mut current = String::new();
    let chars = text::chars_of(s);
    let mut i: usize = 0;
    while i < chars.len()
        invariant
            chars@ == s@,
            i <= chars.len(),
            text::texts(out@) == cut(s@, target as nat, i as nat).closed,
            current@ == cut(s@, target as nat, i as nat).open,
        decreases chars.len() - i,
    {
        let ch = chars[i];
        let width = text::width_of(ch);
        let held = text::byte_length(current.as_str());
        if width > target || held > target - width {
            if !current.as_str().is_empty() {
                let ghost before = out@;
                let ghost piece = current@;
                out.push(current);
                proof {
                    assert(text::texts(out@) =~= text::texts(before).push(piece));
                }
            }
            current = String::new();
            current.push(ch);
            proof {
                assert(current@ =~= seq![ch]);
            }
        } else {
            current.push(ch);
        }
        i += 1;
    }
    if !current.as_str().is_empty() {
        let ghost before = out@;
        let ghost piece = current@;
        out.push(current);
        proof {
            assert(text::texts(out@) =~= text::texts(before).push(piece));
        }
    }
    out
}

/// Close the growing piece, unless it is empty.
fn flush(closed: &mut Vec<String>, open: &mut String)
    ensures
        (Pieces { closed: text::texts(final(closed)@), open: final(open)@ }) == (Pieces {
            closed: text::texts(old(closed)@),
            open: old(open)@,
        }).flushed(),
{
    if !open.as_str().is_empty() {
        let piece = open.clone();
        let ghost before = closed@;
        closed.push(piece);
        *open = String::new();
        proof {
            assert(text::texts(closed@) =~= text::texts(before).push(piece@));
        }
    } else {
        proof {
            assert(open@ =~= Seq::<char>::empty());
        }
    }
}

/// Add `part` to the growing piece where the two fit together.
fn join(closed: &mut Vec<String>, open: &mut String, part: &str, separator: &str, target: usize)
    requires
        text::byte_len(part@) <= target,
    ensures
        (Pieces { closed: text::texts(final(closed)@), open: final(open)@ }) == (Pieces {
            closed: text::texts(old(closed)@),
            open: old(open)@,
        }).joined(part@, separator@, target as nat),
{
    if open.as_str().is_empty() {
        *open = part.to_owned();
    } else {
        proof {
            text::lemma_encode_append(open@, separator@);
            text::lemma_encode_append(open@ + separator@, part@);
        }
        let room: usize = target - text::byte_length(part);
        let gap = text::byte_length(separator);
        if gap <= room && text::byte_length(open.as_str()) <= room - gap {
            open.append(separator);
            open.append(part);
        } else {
            flush(closed, open);
            *open = part.to_owned();
        }
    }
}

/// Add a paragraph that exceeds the budget, sentence by sentence.
fn add_sentences(closed: &mut Vec<String>, open: &mut String, paragraph: &str, target: usize)
    ensures
        (Pieces { closed: text::texts(final(closed)@), open: final(open)@ }) == with_sentences(
            Pieces { closed: text::texts(old(closed)@), open: old(open)@ },
            sentences(paragraph@),
            target as nat,
            sentences(paragraph@).len(),
        ),
{
    let ghost start = Pieces { closed: text::texts(closed@), open: open@ };
    let parts = split_sentences(paragraph);
    let ghost all = sentences(paragraph@);
    let mut i: usize = 0;
    while i < parts.len()
        invariant
            i <= parts.len(),
            text::texts(parts@) == all,
            (Pieces { closed: text::texts(closed@), open: open@ }) == with_sentences(
                start,
                all,
                target as nat,
                i as nat,
            ),
        decreases parts.len() - i,
    {
        let sentence = parts[i].as_str();
        proof {
            assert(text::texts(parts@)[i as int] == sentence@);
        }
        if text::byte_length(sentence) <= target {
            proof {
                reveal_strlit(" ");
                assert(" "@ =~= seq![' ']);
            }
            join(closed, open, sentence, " ", target);
        } else {
            flush(closed, open);
            let ghost before = closed@;
            let mut cuts = hard_split(sentence, target);
            let ghost added = cuts@;
            closed.append(&mut cuts);
            *open = String::new();
            proof {
                assert(text::texts(closed@) =~= text::texts(before) + text::texts(added));
            }
        }
        i += 1;
    }
}

/// Split `s` into chunks of at most `target` bytes, at paragraph boundaries
/// where possible, then at sentence boundaries, then between characters.
/// Empty input gives no chunk.
pub fn chunk_text(s: &str, target: usize) -> (chunks: Vec<String>)
    ensures
        text::texts(chunks@) == chunks_of(s@, target as nat),
{
    let mut chunks: Vec<String> = Vec::new();
    if s.is_empty() {
        proof {
            assert(text::texts(chunks@) =~= Seq::empty());
        }
        return chunks;
    }
    if text::byte_length(s) <= target {
        chunks.push(s.to_owned());
        proof {
            assert(text::texts(chunks@) =~= seq![s@]);
        }
        return chunks;
    }
    let mut current = String::new();
    let gap: Vec<char> = vec!['\n', '\n'];
    proof {
        assert(gap@ =~= seq!['\n', '\n']);
        assert(text::texts(chunks@) =~= Seq::empty());
    }
    let parts = text::split_text(s, &gap);
    let ghost all = text::split_on(s@, seq!['\n', '\n']);
    let mut i: usize = 0;
    while i < parts.len()
        invariant
            i <= parts.len(),
            text::texts(parts@) == all,
            (Pieces { closed: text::texts(chunks@), open: current@ }) == with_paragraphs(
                all,
                target as nat,
                i as nat,
            ),
        decreases parts.len() - i,
    {
        let paragraph = parts[i].as_str();
        proof {
            assert(text::texts(parts@)[i as int] == paragraph@);
        }
        if !paragraph.is_empty() {
            if text::byte_length(paragraph) <= target {
                proof {
                    reveal_strlit("\n\n");
                    assert("\n\n"@ =~= seq!['\n', '\n']);
                }
                join(&mut chunks, &mut current, paragraph, "\n\n", target);
            } else {
                flush(&mut chunks, &mut current);
                add_sentences(&mut chunks, &mut current, paragraph, target);
            }
        }
        i += 1;
    }
    flush(&mut chunks, &mut current);
    chunks
}

} // verus!
