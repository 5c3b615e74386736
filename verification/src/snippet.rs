//! Snippets that show where a full-text query hit.
//!
//! A snippet is a window of about `WINDOW` characters round the first
//! occurrence of the query, with the hit between `**` and an ellipsis at each
//! end that was cut. Everything is counted in characters, never in bytes.
use vstd::prelude::*;
use vstd::string::*;

use crate::text;

verus! {

/// Snippet window size in characters (the hit counts too).
pub const WINDOW: usize = 120;

/// The first `WINDOW` characters of `s`.
pub open spec fn prefix_of(s: Seq<char>) -> Seq<char> {
    if s.len() <= WINDOW {
        s
    } else {
        s.take(WINDOW as int)
    }
}

/// How many characters of padding a hit of `hit` characters leaves.
pub open spec fn padding(hit: nat) -> nat {
    if hit <= WINDOW {
        (WINDOW - hit) as nat
    } else {
        0
    }
}

/// Where the window of a hit at `start` begins.
pub open spec fn window_start(start: int, hit: nat) -> int {
    if start <= padding(hit) / 2 {
        0
    } else {
        start - padding(hit) / 2
    }
}

/// Where the window of a hit at `start` ends, in a text of `total` characters.
pub open spec fn window_end(start: int, hit: nat, total: nat) -> int {
    let end = start + hit + (padding(hit) - padding(hit) / 2);
    if end < total {
        end
    } else {
        total as int
    }
}

/// An ellipsis where `cut` holds.
pub open spec fn ellipsis(cut: bool) -> Seq<char> {
    if cut {
        seq!['\u{2026}']
    } else {
        Seq::empty()
    }
}

/// `query` as it is marked in a snippet.
pub open spec fn highlighted(query: Seq<char>) -> Seq<char> {
    seq!['*', '*'] + query + seq!['*', '*']
}

/// The snippet of `s` for `query`. Without a hit it is a plain prefix.
pub open spec fn snippet_of(s: Seq<char>, query: Seq<char>) -> Seq<char> {
    if query.len() == 0 || !text::occurs(s, query) {
        prefix_of(s)
    } else {
        let start = text::first_index(s, query);
        let from = window_start(start, query.len());
        let to = window_end(start, query.len(), s.len());
        let left = padding(query.len()) / 2;
        let right = padding(query.len()) - left;
        ellipsis(from > 0 && left > 0) + s.subrange(from, start) + highlighted(query) + s.subrange(
            start + query.len(),
            to,
        ) + ellipsis(to < s.len() && right > 0)
    }
}

/// First index where `needle` appears as a contiguous part of `hay`; an empty
/// needle appears nowhere.
pub fn find_first(hay: &Vec<char>, needle: &Vec<char>) -> (found: Option<usize>)
    ensures
        match found {
            Some(at) => needle.len() > 0 && text::first_at(hay@, needle@, at as int),
            None => needle.len() == 0 || !text::occurs(hay@, needle@),
        },
{
    if needle.len() == 0 {
        return None;
    }
    proof {
        assert(hay@.skip(0) =~= hay@);
    }
    text::find_from(hay, needle, 0)
}

/// Build a snippet of about `WINDOW` characters round the first occurrence of
/// `query` in `s`.
pub fn extract_snippet(s: &str, query: &str) -> (snippet: String)
    ensures
        snippet@ == snippet_of(s@, query@),
{
    let chars = text::chars_of(s);
    let total = chars.len();
    let q = text::chars_of(query);
    let shown: usize = if total <= WINDOW {
        total
    } else {
        WINDOW
    };
    let start = match find_first(&chars, &q) {
        Some(at) => at,
        None => {
            proof {
                assert(chars@.subrange(0, shown as int) =~= prefix_of(s@));
            }
            return text::string_of(&chars, 0, shown);
        },
    };
    proof {
        text::lemma_first_unique(s@, query@, start as int);
    }
    let end = start + q.len();
    let pad: usize = if q.len() <= WINDOW {
        WINDOW - q.len()
    } else {
        0
    };
    let left = pad / 2;
    let right = pad - left;
    let from: usize = if start <= left {
        0
    } else {
        start - left
    };
    let to: usize = if right < total - end {
        end + right
    } else {
        total
    };
    let before = text::string_of(&chars, from, start);
    let after = text::string_of(&chars, end, to);
    let mut out = String::new();
    if from > 0 && left > 0 {
        out.push('\u{2026}');
    }
    proof {
        reveal_strlit("**");
        assert("**"@ =~= seq!['*', '*']);
        assert(out@ =~= ellipsis(from > 0 && left > 0));
    }
    out.append(before.as_str());
    out.append("**");
    out.append(query);
    out.append("**");
    out.append(after.as_str());
    let ghost so_far = out@;
    if to < total && right > 0 {
        out.push('\u{2026}');
    }
    proof {
        assert(out@ =~= so_far + ellipsis(to < total && right > 0));
        assert(out@ =~= snippet_of(s@, query@));
    }
    out
}

/// A query that occurs is shown between `**`, and what stands before it in the
/// text does not hold it.
pub proof fn law_snippet_shows_first_hit(s: Seq<char>, query: Seq<char>)
    requires
        query.len() > 0,
        text::occurs(s, query),
    ensures
        text::occurs(snippet_of(s, query), highlighted(query)),
        !text::occurs(s.take(text::first_index(s, query) + query.len() - 1), query),
{
    text::lemma_first_exists(s, query, choose|i: int| text::occurs_at(s, query, i));
    let start = text::first_index(s, query);
    let from = window_start(start, query.len());
    let left = padding(query.len()) / 2;
    let head = ellipsis(from > 0 && left > 0) + s.subrange(from, start);
    let snippet = snippet_of(s, query);
    let at = head.len() as int;
    assert(snippet.subrange(at, at + highlighted(query).len()) =~= highlighted(query));
    assert(text::occurs_at(snippet, highlighted(query), at));
    let before = s.take(start + query.len() - 1);
    assert forall|i: int| !text::occurs_at(before, query, i) by {
        if text::occurs_at(before, query, i) {
            assert(before.subrange(i, i + query.len()) =~= s.subrange(i, i + query.len()));
            assert(text::occurs_at(s, query, i));
        }
    }
}

/// The text in a snippet is at most the window long, or exactly the hit where
/// the hit is longer; marks and ellipses add at most six characters.
pub proof fn law_snippet_is_bounded(s: Seq<char>, query: Seq<char>)
    ensures
        query.len() <= WINDOW ==> snippet_of(s, query).len() <= WINDOW + 6,
        query.len() >= WINDOW && text::occurs(s, query) ==> snippet_of(s, query) == highlighted(query),
{
    if query.len() > 0 && text::occurs(s, query) {
        text::lemma_first_exists(s, query, choose|i: int| text::occurs_at(s, query, i));
        if query.len() >= WINDOW {
            assert(snippet_of(s, query) =~= highlighted(query));
        }
    }
}

/// No character is cut where the whole text fits the padding: the snippet is
/// the text with the first hit marked.
pub proof fn law_short_text_is_kept_whole(s: Seq<char>, query: Seq<char>)
    requires
        query.len() > 0,
        text::occurs(s, query),
        s.len() <= padding(query.len()) / 2,
    ensures
        snippet_of(s, query) == s.take(text::first_index(s, query)) + highlighted(query) + s.skip(
            text::first_index(s, query) + query.len(),
        ),
{
    text::lemma_first_exists(s, query, choose|i: int| text::occurs_at(s, query, i));
    assert(snippet_of(s, query) =~= s.take(text::first_index(s, query)) + highlighted(query)
        + s.skip(text::first_index(s, query) + query.len()));
}

/// The first occurrence of `query` in `s` is at `at`.
pub open spec fn is_first_hit(s: Seq<char>, query: Seq<char>, at: int) -> bool {
    &&& 0 <= at <= s.len() - query.len()
    &&& s.subrange(at, at + query.len()) == query
    &&& forall|i: int|
        0 <= i < at ==> #[trigger] s.subrange(i, i + query.len()) != query
}

/// What a snippet shows of a text: `hidden_left` and `hidden_right` are cut,
/// `left` and `right` stand directly before and after the marked hit.
pub struct Window {
    pub hidden_left: Seq<char>,
    pub left: Seq<char>,
    pub right: Seq<char>,
    pub hidden_right: Seq<char>,
}

/// A snippet is a contiguous part of the text round the first occurrence, which
/// alone is marked. On each side it shows half of what the hit leaves of 120
/// characters, or less only where the text ends; and an ellipsis stands at each
/// end that was cut, as long as that end shows anything.
pub proof fn law_snippet_is_a_window_round_the_first_hit(
    s: Seq<char>,
    query: Seq<char>,
    at: int,
) -> (w: Window)
    requires
        query.len() > 0,
        is_first_hit(s, query, at),
    ensures
        s == w.hidden_left + w.left + query + w.right + w.hidden_right,
        w.hidden_left.len() + w.left.len() == at,
        snippet_of(s, query) == (if w.hidden_left.len() > 0 && w.left.len() > 0 {
            seq!['\u{2026}']
        } else {
            Seq::empty()
        }) + w.left + seq!['*', '*'] + query + seq!['*', '*'] + w.right + (if w.hidden_right.len()
            > 0 && w.right.len() > 0 {
            seq!['\u{2026}']
        } else {
            Seq::empty()
        }),
        query.len() >= 120 ==> w.left.len() == 0 && w.right.len() == 0,
        query.len() < 120 ==> {
            let room = 120 - query.len();
            &&& w.left.len() <= room / 2
            &&& w.right.len() <= room - room / 2
            &&& w.hidden_left.len() > 0 ==> w.left.len() == room / 2
            &&& w.hidden_right.len() > 0 ==> w.right.len() == room - room / 2
        },
{
    assert(text::occurs_at(s, query, at));
    assert forall|i: int| 0 <= i < at implies !text::occurs_at(s, query, i) by {
        assert(s.subrange(i, i + query.len()) != query);
    }
    assert(text::first_at(s, query, at));
    text::lemma_first_unique(s, query, at);
    let from = window_start(at, query.len());
    let to = window_end(at, query.len(), s.len());
    let w = Window {
        hidden_left: s.subrange(0, from),
        left: s.subrange(from, at),
        right: s.subrange(at + query.len(), to),
        hidden_right: s.subrange(to, s.len() as int),
    };
    assert(s =~= w.hidden_left + w.left + query + w.right + w.hidden_right) by {
        assert forall|i: int| at <= i < at + query.len() implies s[i] == query[i - at] by {
            assert(s.subrange(at, at + query.len())[i - at] == query[i - at]);
        }
    }
    assert(snippet_of(s, query) =~= (if w.hidden_left.len() > 0 && w.left.len() > 0 {
        seq!['\u{2026}']
    } else {
        Seq::empty()
    }) + w.left + seq!['*', '*'] + query + seq!['*', '*'] + w.right + (if w.hidden_right.len() > 0
        && w.right.len() > 0 {
        seq!['\u{2026}']
    } else {
        Seq::empty()
    }));
    w
}

/// Without a query, or where the query does not occur, a snippet is the first
/// 120 characters of the text.
pub proof fn law_snippet_without_a_hit_is_a_prefix(s: Seq<char>, query: Seq<char>)
    requires
        query.len() == 0 || forall|i: int|
            0 <= i <= s.len() - query.len() ==> #[trigger] s.subrange(i, i + query.len()) != query,
    ensures
        snippet_of(s, query).is_prefix_of(s),
        snippet_of(s, query).len() == if s.len() < 120 {
            s.len()
        } else {
            120
        },
{
    assert(query.len() == 0 || !text::occurs(s, query));
    assert(snippet_of(s, query) =~= s.subrange(0, snippet_of(s, query).len() as int));
}

} // verus!
