//! Escapes and lines, from which the `.nomai` format is built.
use vstd::prelude::*;
use vstd::string::*;

use crate::text;

verus! {

/// How one character is written. A strict field also escapes the characters
/// that separate names, values and list items.
pub open spec fn escaped_char(c: char, strict: bool) -> Seq<char> {
    if c == '\\' {
        seq!['\\', '\\']
    } else if c == '\n' {
        seq!['\\', 'n']
    } else if strict && c == ' ' {
        seq!['\\', 's']
    } else if strict && c == '=' {
        seq!['\\', 'e']
    } else if strict && c == ',' {
        seq!['\\', 'c']
    } else {
        seq![c]
    }
}

/// How a text is written in a field.
pub open spec fn escaped(s: Seq<char>, strict: bool) -> Seq<char>
    decreases s.len(),
{
    if s.len() == 0 {
        Seq::empty()
    } else {
        escaped_char(s[0], strict) + escaped(s.drop_first(), strict)
    }
}

/// The character that a backslash and `c` stand for.
pub open spec fn escape_meaning(c: char) -> Option<char> {
    if c == '\\' {
        Some('\\')
    } else if c == 'n' {
        Some('\n')
    } else if c == 's' {
        Some(' ')
    } else if c == 'e' {
        Some('=')
    } else if c == 'c' {
        Some(',')
    } else {
        None
    }
}

/// The text that a field stands for; none where an escape has no meaning.
pub open spec fn unescaped(s: Seq<char>) -> Option<Seq<char>>
    decreases s.len(),
{
    if s.len() == 0 {
        Some(Seq::empty())
    } else if s[0] != '\\' {
        match unescaped(s.skip(1)) {
            Some(rest) => Some(seq![s[0]] + rest),
            None => None,
        }
    } else if s.len() < 2 {
        None
    } else {
        match (escape_meaning(s[1]), unescaped(s.skip(2))) {
            (Some(c), Some(rest)) => Some(seq![c] + rest),
            _ => None,
        }
    }
}

/// `c` stands nowhere in `s`.
pub open spec fn lacks(s: Seq<char>, c: char) -> bool {
    forall|i: int| 0 <= i < s.len() ==> s[i] != c
}

/// A written field reads back, and holds no line break; a strict one holds
/// no separator either.
pub proof fn law_escape_round_trip(s: Seq<char>, strict: bool)
    ensures
        unescaped(escaped(s, strict)) == Some(s),
        lacks(escaped(s, strict), '\n'),
        strict ==> lacks(escaped(s, strict), ' ') && lacks(escaped(s, strict), '=') && lacks(
            escaped(s, strict),
            ',',
        ),
    decreases s.len(),
{
    if s.len() == 0 {
        assert(s =~= Seq::empty());
    } else {
        let rest = s.drop_first();
        law_escape_round_trip(rest, strict);
        let head = escaped_char(s[0], strict);
        let all = escaped(s, strict);
        assert(s =~= seq![s[0]] + rest);
        if head.len() == 1 {
            assert(all.skip(1) =~= escaped(rest, strict));
        } else {
            assert(all.skip(2) =~= escaped(rest, strict));
        }
    }
}

/// Write `s` in a field.
pub fn escape_text(s: &str, strict: bool) -> (out: String)
    ensures
        out@ == escaped(s@, strict),
{
    let chars = text::chars_of(s);
    let mut out = String::new();
    let mut i: usize = 0;
    proof {
        assert(chars@.skip(0) =~= chars@);
        assert(out@ + escaped(s@, strict) =~= escaped(s@, strict));
    }
    while i < chars.len()
        invariant
            chars@ == s@,
            i <= chars.len(),
            out@ + escaped(chars@.skip(i as int), strict) == escaped(s@, strict),
        decreases chars.len() - i,
    {
        let c = chars[i];
        let ghost before = out@;
        let ghost rest = chars@.skip(i as int);
        proof {
            assert(rest.drop_first() =~= chars@.skip(i + 1));
        }
        if c == '\\' {
            out.push('\\');
            out.push('\\');
        } else if c == '\n' {
            out.push('\\');
            out.push('n');
        } else if strict && c == ' ' {
            out.push('\\');
            out.push('s');
        } else if strict && c == '=' {
            out.push('\\');
            out.push('e');
        } else if strict && c == ',' {
            out.push('\\');
            out.push('c');
        } else {
            out.push(c);
        }
        proof {
            assert(out@ =~= before + escaped_char(c, strict));
            assert(out@ + escaped(chars@.skip(i + 1), strict) =~= before + (escaped_char(c, strict)
                + escaped(chars@.skip(i + 1), strict)));
        }
        i += 1;
    }
    proof {
        assert(chars@.skip(i as int) =~= Seq::empty());
        assert(out@ + Seq::<char>::empty() =~= out@);
    }
    out
}

fn meaning_of(c: char) -> (r: Option<char>)
    ensures
        r == escape_meaning(c),
{
    if c == '\\' {
        Some('\\')
    } else if c == 'n' {
        Some('\n')
    } else if c == 's' {
        Some(' ')
    } else if c == 'e' {
        Some('=')
    } else if c == 'c' {
        Some(',')
    } else {
        None
    }
}

/// Read the field that stands in `chars` from `from` up to `to`.
pub fn unescape_chars(chars: &Vec<char>, from: usize, to: usize) -> (r: Option<String>)
    requires
        from <= to <= chars.len(),
    ensures
        match r {
            Some(s) => unescaped(chars@.subrange(from as int, to as int)) == Some(s@),
            None => unescaped(chars@.subrange(from as int, to as int)) is None,
        },
{
    let ghost all = chars@.subrange(from as int, to as int);
    let mut out = String::new();
    let mut i: usize = from;
    proof {
        assert(all.skip(0) =~= all);
        if unescaped(all) is Some {
            assert(Seq::<char>::empty() + unescaped(all)->0 =~= unescaped(all)->0);
        }
    }
    while i < to
        invariant
            from <= i <= to <= chars.len(),
            all == chars@.subrange(from as int, to as int),
            match unescaped(all.skip(i - from)) {
                Some(rest) => unescaped(all) == Some(out@ + rest),
                None => unescaped(all) is None,
            },
        decreases to - i,
    {
        let c = chars[i];
        let ghost before = out@;
        let ghost rest = all.skip(i - from);
        proof {
            assert(rest[0] == c);
            assert(rest.skip(1) =~= all.skip(i + 1 - from));
        }
        if c != '\\' {
            out.push(c);
            i += 1;
            proof {
                if unescaped(rest.skip(1)) is Some {
                    let tail = unescaped(rest.skip(1))->0;
                    assert(before + (seq![c] + tail) =~= out@ + tail);
                }
            }
        } else if i + 1 == to {
            return None;
        } else {
            proof {
                assert(rest[1] == chars@[i + 1]);
                assert(rest.skip(2) =~= all.skip(i + 2 - from));
            }
            match meaning_of(chars[i + 1]) {
                Some(m) => {
                    out.push(m);
                    i += 2;
                    proof {
                        if unescaped(rest.skip(2)) is Some {
                            let tail = unescaped(rest.skip(2))->0;
                            assert(before + (seq![m] + tail) =~= out@ + tail);
                        }
                    }
                },
                None => {
                    return None;
                },
            }
        }
    }
    proof {
        assert(all.skip(i - from) =~= Seq::empty());
        assert(out@ + Seq::<char>::empty() =~= out@);
    }
    Some(out)
}

/// The lines, each followed by a line break.
pub open spec fn unlines(lines: Seq<Seq<char>>) -> Seq<char>
    decreases lines.len(),
{
    if lines.len() == 0 {
        Seq::empty()
    } else {
        lines[0] + seq!['\n'] + unlines(lines.drop_first())
    }
}

/// The lines of `s`. A line break at the very end closes the last line.
pub open spec fn lines_of(s: Seq<char>) -> Seq<Seq<char>> {
    let parts = text::split_on(s, seq!['\n']);
    if parts.last().len() == 0 {
        parts.drop_last()
    } else {
        parts
    }
}

/// A first part that lacks the separator is split off whole.
pub proof fn lemma_split_first(part: Seq<char>, c: char, rest: Seq<char>)
    requires
        lacks(part, c),
    ensures
        text::split_on(part + seq![c] + rest, seq![c]) == seq![part] + text::split_on(
            rest,
            seq![c],
        ),
        text::split_on(part, seq![c]) == seq![part],
        text::first_at(part + seq![c] + rest, seq![c], part.len() as int),
        !text::occurs(part, seq![c]),
{
    let gap = seq![c];
    let s = part + gap + rest;
    let at = part.len() as int;
    assert(s.subrange(at, at + 1) =~= gap);
    assert forall|i: int| 0 <= i < at implies !text::occurs_at(s, gap, i) by {
        if text::occurs_at(s, gap, i) {
            assert(s.subrange(i, i + 1)[0] == part[i]);
        }
    }
    text::lemma_first_unique(s, gap, at);
    assert(s.take(at) =~= part);
    assert(s.skip(at + 1) =~= rest);
    assert forall|i: int| !text::occurs_at(part, gap, i) by {
        if text::occurs_at(part, gap, i) {
            assert(part.subrange(i, i + 1)[0] == part[i]);
        }
    }
}

/// The parts with `c` between each two of them.
pub open spec fn joined_by(parts: Seq<Seq<char>>, c: char) -> Seq<char>
    decreases parts.len(),
{
    if parts.len() == 0 {
        Seq::empty()
    } else if parts.len() == 1 {
        parts[0]
    } else {
        joined_by(parts.drop_last(), c) + seq![c] + parts.last()
    }
}

proof fn lemma_joined_first(parts: Seq<Seq<char>>, c: char)
    requires
        parts.len() >= 2,
    ensures
        joined_by(parts, c) == parts[0] + seq![c] + joined_by(parts.drop_first(), c),
    decreases parts.len(),
{
    if parts.len() == 2 {
        assert(parts.drop_last() =~= seq![parts[0]]);
        assert(parts.drop_first() =~= seq![parts[1]]);
        reveal_with_fuel(joined_by, 2);
    } else {
        lemma_joined_first(parts.drop_last(), c);
        assert(parts.drop_last().drop_first() =~= parts.drop_first().drop_last());
        assert(joined_by(parts, c) =~= parts[0] + seq![c] + joined_by(parts.drop_first(), c));
    }
}

/// Parts that lack the separator read back from the text that joins them.
pub proof fn law_join_round_trip(parts: Seq<Seq<char>>, c: char)
    requires
        parts.len() > 0,
        forall|i: int| 0 <= i < parts.len() ==> lacks(#[trigger] parts[i], c),
    ensures
        text::split_on(joined_by(parts, c), seq![c]) == parts,
    decreases parts.len(),
{
    if parts.len() == 1 {
        lemma_split_first(parts[0], c, Seq::empty());
        assert(parts =~= seq![parts[0]]);
    } else {
        let rest = parts.drop_first();
        assert forall|i: int| 0 <= i < rest.len() implies lacks(#[trigger] rest[i], c) by {
            assert(rest[i] == parts[i + 1]);
        }
        law_join_round_trip(rest, c);
        lemma_joined_first(parts, c);
        lemma_split_first(parts[0], c, joined_by(rest, c));
        assert(parts =~= seq![parts[0]] + rest);
    }
}

/// The parts with `c` between each two of them.
pub fn join_by(parts: &Vec<String>, c: char) -> (s: String)
    ensures
        s@ == joined_by(text::texts(parts@), c),
{
    let mut s = String::new();
    let mut i: usize = 0;
    let ghost all = text::texts(parts@);
    while i < parts.len()
        invariant
            i <= parts.len(),
            all == text::texts(parts@),
            s@ == joined_by(all.take(i as int), c),
        decreases parts.len() - i,
    {
        proof {
            assert(all[i as int] == parts@[i as int]@);
            assert(all.take(i + 1).drop_last() =~= all.take(i as int));
        }
        if i == 0 {
            s = parts[i].clone();
        } else {
            s.push(c);
            s.append(parts[i].as_str());
            proof {
                let before = joined_by(all.take(i as int), c);
                assert(before.push(c) + all[i as int] =~= before + seq![c] + all[i as int]);
            }
        }
        i += 1;
    }
    proof {
        assert(all.take(i as int) =~= all);
    }
    s
}

proof fn lemma_split_unlines(lines: Seq<Seq<char>>)
    requires
        forall|i: int| 0 <= i < lines.len() ==> lacks(#[trigger] lines[i], '\n'),
    ensures
        text::split_on(unlines(lines), seq!['\n']) == lines.push(Seq::empty()),
    decreases lines.len(),
{
    if lines.len() == 0 {
        lemma_split_first(Seq::empty(), '\n', Seq::empty());
        assert(lines.push(Seq::empty()) =~= seq![Seq::<char>::empty()]);
    } else {
        let rest = lines.drop_first();
        assert forall|i: int| 0 <= i < rest.len() implies lacks(#[trigger] rest[i], '\n') by {
            assert(rest[i] == lines[i + 1]);
        }
        lemma_split_unlines(rest);
        lemma_split_first(lines[0], '\n', unlines(rest));
        assert(seq![lines[0]] + rest.push(Seq::empty()) =~= lines.push(Seq::empty()));
    }
}

/// Lines that were written one after another read back as those lines.
pub proof fn law_lines_round_trip(lines: Seq<Seq<char>>)
    requires
        forall|i: int| 0 <= i < lines.len() ==> lacks(#[trigger] lines[i], '\n'),
    ensures
        lines_of(unlines(lines)) == lines,
{
    lemma_split_unlines(lines);
    assert(lines.push(Seq::empty()).drop_last() =~= lines);
}

/// A text that is empty or ends with a line break is its lines, each followed
/// by a line break; no line holds one.
pub proof fn law_text_is_its_lines(s: Seq<char>)
    ensures
        forall|i: int| 0 <= i < lines_of(s).len() ==> lacks(#[trigger] lines_of(s)[i], '\n'),
        s.len() == 0 || s.last() == '\n' ==> unlines(lines_of(s)) == s,
        s.len() > 0 && s.last() != '\n' ==> unlines(lines_of(s)) == s.push('\n'),
    decreases s.len(),
{
    let gap = seq!['\n'];
    let parts = text::split_on(s, gap);
    if text::occurs(s, gap) {
        text::lemma_first_exists(s, gap, choose|i: int| text::occurs_at(s, gap, i));
        let at = text::first_index(s, gap);
        let line = s.take(at);
        let rest = s.skip(at + 1);
        assert(s.subrange(at, at + 1)[0] == '\n');
        assert forall|i: int| 0 <= i < line.len() implies line[i] != '\n' by {
            assert(!text::occurs_at(s, gap, i));
            if line[i] == '\n' {
                assert(s.subrange(i, i + 1) =~= gap);
            }
        }
        law_text_is_its_lines(rest);
        let tail = text::split_on(rest, gap);
        assert(parts == seq![line] + tail);
        assert(tail.len() > 0);
        assert(parts.last() == tail.last());
        if tail.last().len() == 0 {
            assert(lines_of(s) =~= seq![line] + lines_of(rest));
        } else {
            assert(lines_of(s) =~= seq![line] + lines_of(rest));
        }
        assert(lines_of(s).drop_first() =~= lines_of(rest));
        assert(s =~= line + gap + rest);
        if rest.len() > 0 {
            assert(rest.last() == s.last());
        } else {
            assert(s.last() == '\n');
        }
        if s.last() == '\n' {
            assert(unlines(lines_of(s)) =~= s);
        } else {
            assert(unlines(lines_of(s)) =~= s.push('\n'));
        }
    } else {
        assert(parts == seq![s]);
        assert forall|i: int| 0 <= i < s.len() implies s[i] != '\n' by {
            if s[i] == '\n' {
                assert(s.subrange(i, i + 1) =~= gap);
                assert(text::occurs_at(s, gap, i));
            }
        }
        if s.len() == 0 {
            assert(lines_of(s) =~= Seq::empty());
            assert(unlines(lines_of(s)) =~= s);
        } else {
            assert(lines_of(s) =~= seq![s]);
            assert(lines_of(s).drop_first() =~= Seq::empty());
            reveal_with_fuel(unlines, 2);
            assert(unlines(lines_of(s)) =~= s.push('\n'));
        }
    }
}

pub proof fn lemma_split_nonempty(s: Seq<char>)
    ensures
        text::split_on(s, seq!['\n']).len() > 0,
{
}

pub proof fn lemma_unlines_push(lines: Seq<Seq<char>>, line: Seq<char>)
    ensures
        unlines(lines.push(line)) == unlines(lines) + line + seq!['\n'],
    decreases lines.len(),
{
    if lines.len() == 0 {
        assert(lines.push(line).drop_first() =~= Seq::empty());
        reveal_with_fuel(unlines, 2);
        assert(unlines(lines.push(line)) =~= unlines(lines) + line + seq!['\n']);
    } else {
        assert(lines.push(line).drop_first() =~= lines.drop_first().push(line));
        lemma_unlines_push(lines.drop_first(), line);
        assert(unlines(lines.push(line)) =~= unlines(lines) + line + seq!['\n']);
    }
}

/// The lines of `s`.
pub fn split_lines(s: &str) -> (lines: Vec<String>)
    ensures
        text::texts(lines@) == lines_of(s@),
{
    let gap: Vec<char> = vec!['\n'];
    proof {
        assert(gap@ =~= seq!['\n']);
        lemma_split_nonempty(s@);
    }
    let mut lines = text::split_text(s, &gap);
    let ghost parts = lines@;
    proof {
        assert(text::texts(parts).len() == parts.len());
        assert(text::texts(parts).last() == parts.last()@);
    }
    if lines[lines.len() - 1].as_str().is_empty() {
        let _ = lines.pop();
        proof {
            assert(text::texts(lines@) =~= text::texts(parts).drop_last());
        }
    }
    lines
}

/// The lines, each followed by a line break.
pub fn join_lines(lines: &Vec<String>) -> (s: String)
    ensures
        s@ == unlines(text::texts(lines@)),
{
    let mut s = String::new();
    let mut i: usize = 0;
    let ghost all = text::texts(lines@);
    proof {
        assert(all.take(0) =~= Seq::empty());
    }
    while i < lines.len()
        invariant
            i <= lines.len(),
            all == text::texts(lines@),
            s@ == unlines(all.take(i as int)),
        decreases lines.len() - i,
    {
        let ghost before = s@;
        s.append(lines[i].as_str());
        s.push('\n');
        proof {
            assert(all[i as int] == lines@[i as int]@);
            assert(all.take(i + 1) =~= all.take(i as int).push(all[i as int]));
            lemma_unlines_push(all.take(i as int), all[i as int]);
            assert(s@ =~= before + all[i as int] + seq!['\n']);
        }
        i += 1;
    }
    proof {
        assert(all.take(i as int) =~= all);
    }
    s
}

} // verus!
