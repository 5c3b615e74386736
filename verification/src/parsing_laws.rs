//! What holds of a file that is read.
use vstd::prelude::*;
use vstd::string::*;

use crate::attrs;
use crate::escaping;
use crate::ids;
use crate::nomai_format::{self, BlockSpec, BlockType, HeaderSpec, StateSpec};
use crate::signals;
use crate::text;
use crate::time;

verus! {

/// The line is the head of a block.
pub open spec fn is_head() -> spec_fn(Seq<char>) -> bool {
    |line: Seq<char>| line.len() > 0 && line[0] == '@'
}

/// The block is what its head line says it is: of the type that the first word
/// names, and, where it is a connection, with a target and a relation.
pub open spec fn is_headed(block: BlockSpec, line: Seq<char>) -> bool {
    &&& BlockType::named(text::split_on(line.skip(1), seq![' '])[0]) == Some(block.type_)
    &&& block.type_ is Connection ==> attrs::has_key(block.attrs, "target"@) && attrs::has_key(
        block.attrs,
        "relation"@,
    )
}

/// The blocks are those of the head lines, one for one.
spec fn are_headed(blocks: Seq<BlockSpec>, heads: Seq<Seq<char>>) -> bool {
    &&& blocks.len() == heads.len()
    &&& forall|k: int| 0 <= k < blocks.len() ==> is_headed(#[trigger] blocks[k], heads[k])
}

proof fn lemma_step_heads(st: StateSpec, lines: Seq<Seq<char>>, at: nat)
    requires
        at < lines.len(),
        st.reachable(),
        are_headed(st.blocks, lines.take(at as int).filter(is_head())),
        nomai_format::step(st, lines[at as int], at + 1) is Ok,
    ensures
        ({
            let next = nomai_format::step(st, lines[at as int], at + 1)->Ok_0;
            &&& next.reachable()
            &&& are_headed(next.blocks, lines.take((at + 1) as int).filter(is_head()))
        }),
{
    let line = lines[at as int];
    let next = nomai_format::step(st, line, at + 1)->Ok_0;
    signals::lemma_filter_take(lines, at as int, is_head());
    if is_head()(line) {
        assert(text::begins_with(line, '@'));
    } else {
        assert(!text::begins_with(line, '@'));
        if st.phase is Body {
            let heads = lines.take(at as int).filter(is_head());
            let n = st.blocks.len() - 1;
            assert(is_headed(st.blocks[n], heads[n]));
            assert forall|k: int| 0 <= k < next.blocks.len() implies is_headed(
                #[trigger] next.blocks[k],
                heads[k],
            ) by {
                assert(is_headed(st.blocks[k], heads[k]));
            }
        }
    }
}

proof fn lemma_run_heads(st: StateSpec, lines: Seq<Seq<char>>, at: nat)
    requires
        at <= lines.len(),
        st.reachable(),
        are_headed(st.blocks, lines.take(at as int).filter(is_head())),
        nomai_format::run(st, lines, at) is Ok,
    ensures
        are_headed(
            nomai_format::run(st, lines, at)->Ok_0.blocks,
            lines.filter(is_head()),
        ),
    decreases lines.len() - at,
{
    if at == lines.len() {
        assert(lines.take(at as int) =~= lines);
    } else {
        lemma_step_heads(st, lines, at);
        let next = nomai_format::step(st, lines[at as int], at + 1)->Ok_0;
        lemma_run_heads(next, lines, at + 1);
    }
}

/// A file that can be read has as many blocks as lines that begin with `@`, in
/// their order: each of the known type that its line names, and a connection
/// names its target and relation.
pub proof fn law_blocks_are_those_of_the_head_lines(input: Seq<char>)
    ensures
        nomai_format::parsed(input) matches Ok(d) ==> {
            let heads = escaping::lines_of(input).filter(is_head());
            &&& input.len() > 0
            &&& d.blocks.len() == heads.len()
            &&& forall|k: int|
                0 <= k < d.blocks.len() ==> is_headed(#[trigger] d.blocks[k], heads[k])
        },
{
    if nomai_format::parsed(input) is Ok {
        let lines = escaping::lines_of(input);
        reveal(Seq::filter);
        assert(lines.take(0).filter(is_head()) =~= Seq::empty());
        lemma_run_heads(nomai_format::initial(), lines, 0);
    }
}

/// One of the first `n` lines gives the header field.
pub open spec fn has_field(lines: Seq<Seq<char>>, n: int, key: Seq<char>) -> bool {
    exists|i: int|
        0 <= i < n && (seq!['#'] + key + seq![' ']).is_prefix_of(#[trigger] lines[i])
}

/// Whatever the header holds was given by a line.
spec fn is_given(h: HeaderSpec, lines: Seq<Seq<char>>, n: int) -> bool {
    &&& h.versioned ==> has_field(lines, n, "format_version"@)
    &&& h.id is Some ==> has_field(lines, n, "id"@)
    &&& h.title is Some ==> has_field(lines, n, "title"@)
    &&& h.created_at is Some ==> has_field(lines, n, "created_at"@)
    &&& h.updated_at is Some ==> has_field(lines, n, "updated_at"@)
    &&& h.source is Some ==> has_field(lines, n, "source"@)
    &&& h.tags.len() > 0 ==> has_field(lines, n, "tags"@)
}

proof fn lemma_more(lines: Seq<Seq<char>>, n: int, key: Seq<char>)
    requires
        has_field(lines, n, key),
    ensures
        has_field(lines, n + 1, key),
{
    let i = choose|i: int|
        0 <= i < n && (seq!['#'] + key + seq![' ']).is_prefix_of(#[trigger] lines[i]);
    assert((seq!['#'] + key + seq![' ']).is_prefix_of(lines[i]));
}

proof fn lemma_all_more(h: HeaderSpec, lines: Seq<Seq<char>>, n: int)
    requires
        is_given(h, lines, n),
    ensures
        is_given(h, lines, n + 1),
{
    if h.versioned {
        lemma_more(lines, n, "format_version"@);
    }
    if h.id is Some {
        lemma_more(lines, n, "id"@);
    }
    if h.title is Some {
        lemma_more(lines, n, "title"@);
    }
    if h.created_at is Some {
        lemma_more(lines, n, "created_at"@);
    }
    if h.updated_at is Some {
        lemma_more(lines, n, "updated_at"@);
    }
    if h.source is Some {
        lemma_more(lines, n, "source"@);
    }
    if h.tags.len() > 0 {
        lemma_more(lines, n, "tags"@);
    }
}

proof fn lemma_step_header(st: StateSpec, lines: Seq<Seq<char>>, at: nat)
    requires
        at < lines.len(),
        is_given(st.header, lines, at as int),
        nomai_format::step(st, lines[at as int], at + 1) is Ok,
    ensures
        is_given(
            nomai_format::step(st, lines[at as int], at + 1)->Ok_0.header,
            lines,
            (at + 1) as int,
        ),
{
    let line = lines[at as int];
    lemma_all_more(st.header, lines, at as int);
    if st.phase is Header && line.len() > 0 && line[0] == '#' {
        let rest = line.skip(1);
        let p = text::first_index(rest, seq![' ']);
        text::lemma_first_exists(
            rest,
            seq![' '],
            choose|i: int| text::occurs_at(rest, seq![' '], i),
        );
        let key = rest.take(p);
        assert(rest.subrange(p, p + 1)[0] == ' ');
        let start = seq!['#'] + key + seq![' '];
        assert(start =~= line.take(start.len() as int));
        assert(start.is_prefix_of(lines[at as int]));
        assert(has_field(lines, (at + 1) as int, key));
        lemma_field(st.header, key, rest.skip(p + 1), (at + 1) as nat);
    }
}

/// A header field sets what its key names and nothing else.
spec fn sets_only(h: HeaderSpec, next: HeaderSpec, key: Seq<char>) -> bool {
    &&& next.versioned == h.versioned || key == "format_version"@
    &&& next.id == h.id || key == "id"@
    &&& next.title == h.title || key == "title"@
    &&& next.created_at == h.created_at || key == "created_at"@
    &&& next.updated_at == h.updated_at || key == "updated_at"@
    &&& next.source == h.source || key == "source"@
    &&& next.tags == h.tags || key == "tags"@
    &&& next.attrs == h.attrs || "attr."@.is_prefix_of(key)
}

proof fn lemma_field(h: HeaderSpec, key: Seq<char>, value: Seq<char>, line: nat)
    requires
        nomai_format::header_field(h, key, value, line) is Ok,
    ensures
        sets_only(h, nomai_format::header_field(h, key, value, line)->Ok_0, key),
{
    if text::occurs_at(key, "attr."@, 0) {
        assert(key.subrange(0, "attr."@.len() as int) =~= key.take("attr."@.len() as int));
    }
}

proof fn lemma_run_header(st: StateSpec, lines: Seq<Seq<char>>, at: nat)
    requires
        at <= lines.len(),
        is_given(st.header, lines, at as int),
        nomai_format::run(st, lines, at) is Ok,
    ensures
        is_given(nomai_format::run(st, lines, at)->Ok_0.header, lines, lines.len() as int),
    decreases lines.len() - at,
{
    if at < lines.len() {
        lemma_step_header(st, lines, at);
        let next = nomai_format::step(st, lines[at as int], at + 1)->Ok_0;
        lemma_run_header(next, lines, at + 1);
    }
}

proof fn lemma_run_reachable(st: StateSpec, lines: Seq<Seq<char>>, at: nat)
    requires
        at <= lines.len(),
        st.reachable(),
        nomai_format::run(st, lines, at) is Ok,
    ensures
        nomai_format::run(st, lines, at)->Ok_0.reachable(),
    decreases lines.len() - at,
{
    if at < lines.len() {
        let next = nomai_format::step(st, lines[at as int], at + 1)->Ok_0;
        lemma_run_reachable(next, lines, at + 1);
    }
}

/// A file can be read only where its header gives the version, the identifier,
/// the title and both times; and a source and tags are read only where lines
/// give them.
pub proof fn law_required_fields_are_given(input: Seq<char>)
    ensures
        nomai_format::parsed(input) matches Ok(d) ==> {
            let lines = escaping::lines_of(input);
            let n = lines.len() as int;
            &&& d.format_version == 1
            &&& has_field(lines, n, "format_version"@)
            &&& has_field(lines, n, "id"@)
            &&& has_field(lines, n, "title"@)
            &&& has_field(lines, n, "created_at"@)
            &&& has_field(lines, n, "updated_at"@)
            &&& d.source is Some ==> has_field(lines, n, "source"@)
            &&& d.tags.len() > 0 ==> has_field(lines, n, "tags"@)
        },
{
    if nomai_format::parsed(input) is Ok {
        let lines = escaping::lines_of(input);
        lemma_run_header(nomai_format::initial(), lines, 0);
        lemma_run_reachable(nomai_format::initial(), lines, 0);
    }
}

/// A header field that is accepted sets what its key names to the value, without
/// its escapes, and nothing else; a later one of the same key counts. Every
/// other key must be an attribute's.
pub proof fn law_header_field_sets_its_key(
    h: HeaderSpec,
    key: Seq<char>,
    value: Seq<char>,
    line: nat,
)
    ensures
        nomai_format::header_field(h, key, value, line) matches Ok(next) ==> {
            let v = escaping::unescaped(value);
            &&& key == "format_version"@ ==> v == Some("1"@) && next.versioned
            &&& key == "id"@ ==> v is Some && next.id is Some && ids::id_of_text(v->0) == next.id
            &&& key == "title"@ ==> v is Some && next.title == v
            &&& key == "source"@ ==> v is Some && next.source == v
            &&& key == "created_at"@ ==> v is Some && next.created_at is Some && time::time_of_text(
                v->0,
            ) == next.created_at
            &&& key == "updated_at"@ ==> v is Some && next.updated_at is Some && time::time_of_text(
                v->0,
            ) == next.updated_at
            &&& key != "title"@ ==> next.title == h.title
            &&& key != "id"@ ==> next.id == h.id
            &&& key != "source"@ ==> next.source == h.source
            &&& key != "created_at"@ ==> next.created_at == h.created_at
            &&& key != "updated_at"@ ==> next.updated_at == h.updated_at
            &&& key != "tags"@ ==> next.tags == h.tags
            &&& !"attr."@.is_prefix_of(key) ==> next.attrs == h.attrs && (key
                == "format_version"@ || key == "id"@ || key == "title"@ || key == "source"@ || key
                == "created_at"@ || key == "updated_at"@ || key == "tags"@)
        },
{
    reveal_strlit("format_version");
    reveal_strlit("id");
    reveal_strlit("title");
    reveal_strlit("source");
    reveal_strlit("created_at");
    reveal_strlit("updated_at");
    reveal_strlit("tags");
    assert("format_version"@.len() == 14 && "id"@.len() == 2 && "title"@.len() == 5
        && "source"@.len() == 6 && "created_at"@.len() == 10 && "updated_at"@.len() == 10
        && "tags"@.len() == 4);
    assert("created_at"@[0] != "updated_at"@[0]);
    if nomai_format::header_field(h, key, value, line) is Ok {
        lemma_field(h, key, value, line);
        if text::occurs_at(key, "attr."@, 0) {
            assert(key.subrange(0, "attr."@.len() as int) =~= key.take("attr."@.len() as int));
        }
    }
}

} // verus!
