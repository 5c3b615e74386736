//! Why a document that was rendered parses back.
use vstd::prelude::*;
use vstd::string::*;

use crate::attrs::{self, AttrSpec, Members};
use crate::escaping;
use crate::ids;
use crate::nomai_format::{self, BlockSpec, BlockType, DocSpec, Fault, HeaderSpec, Phase, StateSpec};
use crate::text;
use crate::time;

verus! {

/// The members with every value as a string, which is how they come back.
pub open spec fn as_strings(members: Members) -> Members {
    members.map_values(|m: (Seq<char>, AttrSpec)| (m.0, AttrSpec::Text(m.1.text())))
}

/// The block with every attribute as a string.
pub open spec fn block_as_strings(b: BlockSpec) -> BlockSpec {
    BlockSpec { attrs: as_strings(b.attrs), ..b }
}

/// The document with every attribute as a string.
pub open spec fn doc_as_strings(d: DocSpec) -> DocSpec {
    DocSpec {
        attrs: as_strings(d.attrs),
        blocks: d.blocks.map_values(|b: BlockSpec| block_as_strings(b)),
        ..d
    }
}

/// A block that the format can hold: its text is made of whole lines, its
/// attributes have different names, and a connection names what it connects.
pub open spec fn block_well_formed(b: BlockSpec) -> bool {
    &&& b.text.len() == 0 || b.text.last() == '\n'
    &&& attrs::distinct_keys(b.attrs)
    &&& b.type_ == BlockType::Connection ==> attrs::has_key(b.attrs, "target"@) && attrs::has_key(
        b.attrs,
        "relation"@,
    )
}

/// A document that the format can hold.
pub open spec fn doc_well_formed(d: DocSpec) -> bool {
    &&& d.format_version == 1
    &&& d.created_at.valid() && d.created_at.four_digit_year()
    &&& d.updated_at.valid() && d.updated_at.four_digit_year()
    &&& attrs::distinct_keys(d.attrs)
    &&& forall|i: int| 0 <= i < d.blocks.len() ==> block_well_formed(#[trigger] d.blocks[i])
}

/// Every attribute is a string already.
pub open spec fn only_strings(members: Members) -> bool {
    forall|i: int| 0 <= i < members.len() ==> (#[trigger] members[i]).1 is Text
}

/// A document whose attributes are strings is what it comes back as.
pub proof fn law_strings_come_back_unchanged(d: DocSpec)
    requires
        only_strings(d.attrs),
        forall|i: int| 0 <= i < d.blocks.len() ==> only_strings((#[trigger] d.blocks[i]).attrs),
    ensures
        doc_as_strings(d) == d,
{
    assert(as_strings(d.attrs) =~= d.attrs);
    assert forall|i: int| 0 <= i < d.blocks.len() implies block_as_strings(#[trigger] d.blocks[i])
        == d.blocks[i] by {
        assert(as_strings(d.blocks[i].attrs) =~= d.blocks[i].attrs);
    }
    assert(doc_as_strings(d).blocks =~= d.blocks);
}

proof fn lemma_keys()
    ensures
        "tags"@.len() == 4 && "tags"@[0] == 't',
        "title"@.len() == 5 && "title"@[0] == 't',
        "format_version"@.len() == 14 && "format_version"@[0] == 'f',
        "id"@.len() == 2 && "id"@[0] == 'i',
        "source"@.len() == 6 && "source"@[0] == 's',
        "created_at"@.len() == 10 && "created_at"@[0] == 'c',
        "updated_at"@.len() == 10 && "updated_at"@[0] == 'u',
        "attr."@.len() == 5 && "attr."@[0] == 'a',
        escaping::lacks("tags"@, ' ') && escaping::lacks("tags"@, '\n'),
        escaping::lacks("title"@, ' ') && escaping::lacks("title"@, '\n'),
        escaping::lacks("format_version"@, ' ') && escaping::lacks("format_version"@, '\n'),
        escaping::lacks("id"@, ' ') && escaping::lacks("id"@, '\n'),
        escaping::lacks("source"@, ' ') && escaping::lacks("source"@, '\n'),
        escaping::lacks("created_at"@, ' ') && escaping::lacks("created_at"@, '\n'),
        escaping::lacks("updated_at"@, ' ') && escaping::lacks("updated_at"@, '\n'),
        escaping::lacks("attr."@, ' ') && escaping::lacks("attr."@, '\n'),
{
    reveal_strlit("tags");
    reveal_strlit("title");
    reveal_strlit("format_version");
    reveal_strlit("id");
    reveal_strlit("source");
    reveal_strlit("created_at");
    reveal_strlit("updated_at");
    reveal_strlit("attr.");
}

proof fn lemma_names(ty: BlockType)
    ensures
        escaping::lacks(ty.name(), ' ') && escaping::lacks(ty.name(), '\n'),
{
    reveal_strlit("claim");
    reveal_strlit("evidence");
    reveal_strlit("question");
    reveal_strlit("source");
    reveal_strlit("note");
    reveal_strlit("connection");
    reveal_strlit("image");
}

/// Reading a header line that writes `value` under `key`.
proof fn lemma_field_step(
    st: StateSpec,
    lines: Seq<Seq<char>>,
    at: nat,
    key: Seq<char>,
    written: Seq<char>,
    next: HeaderSpec,
)
    requires
        at < lines.len(),
        lines[at as int] == seq!['#'] + key + seq![' '] + written,
        st.phase == Phase::Header,
        escaping::lacks(key, ' '),
        nomai_format::header_field(st.header, key, written, at + 1) == Ok::<HeaderSpec, Fault>(
            next,
        ),
    ensures
        nomai_format::run(st, lines, at) == nomai_format::run(
            StateSpec { header: next, ..st },
            lines,
            at + 1,
        ),
{
    let line = lines[at as int];
    let rest = line.skip(1);
    assert(rest =~= key + seq![' '] + written);
    escaping::lemma_split_first(key, ' ', written);
    text::lemma_first_unique(rest, seq![' '], key.len() as int);
    assert(rest.take(key.len() as int) =~= key);
    assert(rest.skip(key.len() as int + 1) =~= written);
    assert(line[0] == '#');
}

/// A key that stands nowhere yet is added at the end.
proof fn lemma_fresh_member(members: Members, n: int, value: AttrSpec)
    requires
        attrs::distinct_keys(members),
        0 <= n < members.len(),
    ensures
        attrs::with_member(as_strings(members).take(n), members[n].0, value) == as_strings(
            members,
        ).take(n).push((members[n].0, value)),
{
    let before = as_strings(members).take(n);
    assert forall|i: int| !attrs::key_at(before, members[n].0, i) by {
        if attrs::key_at(before, members[n].0, i) {
            assert(members[i].0 == members[n].0);
        }
    }
}

proof fn lemma_attr_steps(st: StateSpec, lines: Seq<Seq<char>>, at: nat, members: Members, n: nat)
    requires
        st.phase == Phase::Header,
        attrs::distinct_keys(members),
        n <= members.len(),
        at + members.len() <= lines.len(),
        st.header.attrs.len() == 0,
        forall|i: int|
            0 <= i < members.len() ==> lines[at + i] == nomai_format::attr_line(
                #[trigger] members[i],
            ),
    ensures
        nomai_format::run(st, lines, at) == nomai_format::run(
            StateSpec {
                header: HeaderSpec { attrs: as_strings(members).take(n as int), ..st.header },
                ..st
            },
            lines,
            at + n,
        ),
    decreases n,
{
    if n == 0 {
        assert(as_strings(members).take(0) =~= st.header.attrs);
    } else {
        lemma_attr_steps(st, lines, at, members, (n - 1) as nat);
        lemma_keys();
        let m = members[n - 1];
        let before = StateSpec {
            header: HeaderSpec { attrs: as_strings(members).take(n - 1), ..st.header },
            ..st
        };
        let name = escaping::escaped(m.0, true);
        let key = "attr."@ + name;
        let written = escaping::escaped(m.1.text(), false);
        escaping::law_escape_round_trip(m.0, true);
        escaping::law_escape_round_trip(m.1.text(), false);
        lemma_fresh_member(members, n - 1, AttrSpec::Text(m.1.text()));
        assert(as_strings(members).take(n as int) =~= as_strings(members).take(n - 1).push(
            (m.0, AttrSpec::Text(m.1.text())),
        ));
        assert(key.subrange(0, 5) =~= "attr."@);
        assert(key.skip(5) =~= name);
        assert(key[0] == 'a');
        let next = HeaderSpec { attrs: as_strings(members).take(n as int), ..st.header };
        assert(nomai_format::header_field(before.header, key, written, (at + n - 1) as nat + 1)
            == Ok::<HeaderSpec, Fault>(next));
        lemma_field_step(before, lines, (at + n - 1) as nat, key, written, next);
    }
}

proof fn lemma_tags_read(tags: Seq<Seq<char>>, n: nat)
    requires
        n <= tags.len(),
    ensures
        nomai_format::all_unescaped(
            tags.map_values(|t: Seq<char>| escaping::escaped(t, true)),
            n,
        ) == Some(tags.take(n as int)),
    decreases n,
{
    if n == 0 {
        assert(tags.take(0) =~= Seq::empty());
    } else {
        lemma_tags_read(tags, (n - 1) as nat);
        escaping::law_escape_round_trip(tags[n - 1], true);
        assert(tags.take(n as int) =~= tags.take(n - 1).push(tags[n - 1]));
    }
}

/// The header that a document's header lines read as.
spec fn full_header(d: DocSpec) -> HeaderSpec {
    HeaderSpec {
        versioned: true,
        id: Some(d.id),
        title: Some(d.title),
        tags: d.tags,
        attrs: as_strings(d.attrs),
        source: d.source,
        created_at: Some(d.created_at),
        updated_at: Some(d.updated_at),
    }
}

proof fn lemma_header_steps(d: DocSpec, lines: Seq<Seq<char>>)
    requires
        doc_well_formed(d),
        time::time_of_text(time::text_of_time(d.created_at)) == Some(d.created_at),
        time::time_of_text(time::text_of_time(d.updated_at)) == Some(d.updated_at),
        nomai_format::header_lines(d).len() <= lines.len(),
        forall|i: int|
            0 <= i < nomai_format::header_lines(d).len() ==> #[trigger] lines[i]
                == nomai_format::header_lines(d)[i],
    ensures
        nomai_format::run(nomai_format::initial(), lines, 0) == nomai_format::run(
            StateSpec { phase: Phase::Header, header: full_header(d), blocks: Seq::empty() },
            lines,
            nomai_format::header_lines(d).len(),
        ),
{
    lemma_keys();
    let head = nomai_format::header_lines(d);
    let h0 = HeaderSpec::empty();
    let st0 = nomai_format::initial();

    let v1 = text::decimal(1);
    reveal_strlit("1");
    assert("1"@ =~= v1);
    escaping::law_escape_round_trip(v1, false);
    let h1 = HeaderSpec { versioned: true, ..h0 };
    assert(lines[0] == head[0]);
    lemma_field_step(st0, lines, 0, "format_version"@, escaping::escaped(v1, false), h1);
    let st1 = StateSpec { header: h1, ..st0 };

    let v2 = ids::text_of_id(d.id);
    ids::law_id_text_round_trip(d.id);
    escaping::law_escape_round_trip(v2, false);
    let h2 = HeaderSpec { id: Some(d.id), ..h1 };
    assert(lines[1] == head[1]);
    lemma_field_step(st1, lines, 1, "id"@, escaping::escaped(v2, false), h2);
    let st2 = StateSpec { header: h2, ..st1 };

    escaping::law_escape_round_trip(d.title, false);
    let h3 = HeaderSpec { title: Some(d.title), ..h2 };
    assert(lines[2] == head[2]);
    lemma_field_step(st2, lines, 2, "title"@, escaping::escaped(d.title, false), h3);
    let st3 = StateSpec { header: h3, ..st2 };

    let v4 = time::text_of_time(d.created_at);
    escaping::law_escape_round_trip(v4, false);
    let h4 = HeaderSpec { created_at: Some(d.created_at), ..h3 };
    assert(lines[3] == head[3]);
    lemma_field_step(st3, lines, 3, "created_at"@, escaping::escaped(v4, false), h4);
    let st4 = StateSpec { header: h4, ..st3 };

    let v5 = time::text_of_time(d.updated_at);
    escaping::law_escape_round_trip(v5, false);
    let h5 = HeaderSpec { updated_at: Some(d.updated_at), ..h4 };
    assert(lines[4] == head[4]);
    lemma_field_step(st4, lines, 4, "updated_at"@, escaping::escaped(v5, false), h5);
    let st5 = StateSpec { header: h5, ..st4 };

    let h6 = HeaderSpec { tags: d.tags, ..h5 };
    let st6 = StateSpec { header: h6, ..st5 };
    let at6: nat = if d.tags.len() == 0 {
        5
    } else {
        6
    };
    if d.tags.len() == 0 {
        assert(d.tags =~= h5.tags);
    } else {
        let parts = d.tags.map_values(|t: Seq<char>| escaping::escaped(t, true));
        assert forall|i: int| 0 <= i < parts.len() implies escaping::lacks(
            #[trigger] parts[i],
            ',',
        ) by {
            escaping::law_escape_round_trip(d.tags[i], true);
        }
        escaping::law_join_round_trip(parts, ',');
        lemma_tags_read(d.tags, d.tags.len());
        assert(d.tags.take(d.tags.len() as int) =~= d.tags);
        assert(lines[5] == head[5]);
        lemma_field_step(st5, lines, 5, "tags"@, nomai_format::tags_value(d.tags), h6);
    }

    let h7 = HeaderSpec { source: d.source, ..h6 };
    let st7 = StateSpec { header: h7, ..st6 };
    let at7: nat = if d.source is Some {
        at6 + 1
    } else {
        at6
    };
    if let Some(source) = d.source {
        escaping::law_escape_round_trip(source, false);
        assert(lines[at6 as int] == head[at6 as int]);
        lemma_field_step(st6, lines, at6, "source"@, escaping::escaped(source, false), h7);
    }

    assert(head.len() == at7 + d.attrs.len());
    assert forall|i: int| 0 <= i < d.attrs.len() implies lines[at7 + i] == nomai_format::attr_line(
        #[trigger] d.attrs[i],
    ) by {
        assert(lines[at7 + i] == head[at7 + i]);
    }
    lemma_attr_steps(st7, lines, at7, d.attrs, d.attrs.len());
    assert(as_strings(d.attrs).take(d.attrs.len() as int) =~= as_strings(d.attrs));
}

proof fn lemma_head_attrs(b: BlockSpec, n: nat, line: nat)
    requires
        n <= b.attrs.len(),
        attrs::distinct_keys(b.attrs),
    ensures
        nomai_format::head_attrs(nomai_format::head_words(b), n, line) == Ok::<Members, Fault>(
            as_strings(b.attrs).take(n as int),
        ),
    decreases n,
{
    if n == 0 {
        assert(as_strings(b.attrs).take(0) =~= Seq::empty());
    } else {
        lemma_head_attrs(b, (n - 1) as nat, line);
        let m = b.attrs[n - 1];
        let word = nomai_format::head_words(b)[n as int];
        let name = escaping::escaped(m.0, true);
        let value = escaping::escaped(m.1.text(), true);
        assert(word == name + seq!['='] + value);
        escaping::law_escape_round_trip(m.0, true);
        escaping::law_escape_round_trip(m.1.text(), true);
        escaping::lemma_split_first(name, '=', value);
        text::lemma_first_unique(word, seq!['='], name.len() as int);
        assert(word.take(name.len() as int) =~= name);
        assert(word.skip(name.len() as int + 1) =~= value);
        lemma_fresh_member(b.attrs, n - 1, AttrSpec::Text(m.1.text()));
        assert(as_strings(b.attrs).take(n as int) =~= as_strings(b.attrs).take(n - 1).push(
            (m.0, AttrSpec::Text(m.1.text())),
        ));
    }
}

proof fn lemma_block_head(b: BlockSpec, line: nat)
    requires
        block_well_formed(b),
    ensures
        nomai_format::block_head(escaping::joined_by(nomai_format::head_words(b), ' '), line)
            == Ok::<BlockSpec, Fault>(
            BlockSpec { text: Seq::empty(), ..block_as_strings(b) },
        ),
{
    let words = nomai_format::head_words(b);
    lemma_names(b.type_);
    assert forall|i: int| 0 <= i < words.len() implies escaping::lacks(#[trigger] words[i], ' ') by {
        if i > 0 {
            let m = b.attrs[i - 1];
            assert(words[i] == nomai_format::head_word(m));
            escaping::law_escape_round_trip(m.0, true);
            escaping::law_escape_round_trip(m.1.text(), true);
        }
    }
    escaping::law_join_round_trip(words, ' ');
    nomai_format::law_block_type_round_trip(b.type_, Seq::empty());
    lemma_head_attrs(b, b.attrs.len(), line);
    assert(as_strings(b.attrs).take(b.attrs.len() as int) =~= as_strings(b.attrs));
    let flat = as_strings(b.attrs);
    assert forall|key: Seq<char>| attrs::has_key(b.attrs, key) implies attrs::has_key(flat, key) by {
        let i = choose|i: int| attrs::key_at(b.attrs, key, i);
        assert(attrs::key_at(flat, key, i));
    }
}

proof fn lemma_text_steps(
    st: StateSpec,
    lines: Seq<Seq<char>>,
    at: nat,
    body: Seq<Seq<char>>,
    n: nat,
)
    requires
        st.phase == Phase::Body,
        st.blocks.len() > 0,
        n <= body.len(),
        at + body.len() <= lines.len(),
        forall|i: int|
            0 <= i < body.len() ==> lines[at + i] == nomai_format::shielded(#[trigger] body[i]),
    ensures
        nomai_format::run(st, lines, at) == nomai_format::run(
            StateSpec {
                blocks: st.blocks.drop_last().push(
                    BlockSpec {
                        text: st.blocks.last().text + escaping::unlines(body.take(n as int)),
                        ..st.blocks.last()
                    },
                ),
                ..st
            },
            lines,
            at + n,
        ),
    decreases n,
{
    if n == 0 {
        assert(st.blocks.last().text + escaping::unlines(body.take(0)) =~= st.blocks.last().text);
        assert(st.blocks.drop_last().push(st.blocks.last()) =~= st.blocks);
    } else {
        lemma_text_steps(st, lines, at, body, (n - 1) as nat);
        let last = st.blocks.last();
        let grown = BlockSpec {
            text: last.text + escaping::unlines(body.take(n - 1)),
            ..last
        };
        let before = StateSpec { blocks: st.blocks.drop_last().push(grown), ..st };
        let line = lines[at + n - 1];
        assert(line == nomai_format::shielded(body[n - 1]));
        assert(nomai_format::unshielded(line) =~= body[n - 1]);
        assert(body.take(n as int) =~= body.take(n - 1).push(body[n - 1]));
        escaping::lemma_unlines_push(body.take(n - 1), body[n - 1]);
        assert(grown.text + body[n - 1] + seq!['\n'] =~= last.text + escaping::unlines(
            body.take(n as int),
        ));
        assert(before.blocks.drop_last() =~= st.blocks.drop_last());
    }
}

proof fn lemma_block_steps(st: StateSpec, lines: Seq<Seq<char>>, at: nat, b: BlockSpec)
    requires
        block_well_formed(b),
        st.phase != Phase::Header,
        at + nomai_format::block_lines(b).len() <= lines.len(),
        forall|i: int|
            0 <= i < nomai_format::block_lines(b).len() ==> lines[at + i]
                == #[trigger] nomai_format::block_lines(b)[i],
    ensures
        nomai_format::run(st, lines, at) == nomai_format::run(
            StateSpec { phase: Phase::Body, blocks: st.blocks.push(block_as_strings(b)), ..st },
            lines,
            at + nomai_format::block_lines(b).len(),
        ),
{
    let all = nomai_format::block_lines(b);
    let body = escaping::lines_of(b.text);
    let opened = BlockSpec { text: Seq::empty(), ..block_as_strings(b) };
    let head = lines[at as int];
    assert(lines[at as int] == all[0]);
    assert(head.skip(1) =~= escaping::joined_by(nomai_format::head_words(b), ' '));
    lemma_block_head(b, at + 1);
    let st1 = StateSpec { phase: Phase::Head, blocks: st.blocks.push(opened), ..st };
    assert(nomai_format::step(st, head, at + 1) == Ok::<StateSpec, Fault>(st1));
    assert(lines[at as int + 1] == all[1]);
    let st2 = StateSpec { phase: Phase::Body, ..st1 };
    assert(nomai_format::step(st1, lines[at as int + 1], at + 2) == Ok::<StateSpec, Fault>(st2));
    assert(nomai_format::run(st, lines, at) == nomai_format::run(st1, lines, at + 1));
    assert(nomai_format::run(st1, lines, at + 1) == nomai_format::run(st2, lines, at + 2));
    assert forall|i: int| 0 <= i < body.len() implies lines[at + 2 + i] == nomai_format::shielded(
        #[trigger] body[i],
    ) by {
        assert(lines[at + (2 + i)] == all[2 + i]);
    }
    lemma_text_steps(st2, lines, at + 2, body, body.len());
    assert(body.take(body.len() as int) =~= body);
    escaping::law_text_is_its_lines(b.text);
    assert(opened.text + escaping::unlines(body) =~= b.text);
    assert(st2.blocks.drop_last().push(block_as_strings(b)) =~= st.blocks.push(
        block_as_strings(b),
    ));
}

proof fn lemma_body_steps(
    st: StateSpec,
    lines: Seq<Seq<char>>,
    at: nat,
    blocks: Seq<BlockSpec>,
    n: nat,
)
    requires
        n <= blocks.len(),
        forall|i: int| 0 <= i < blocks.len() ==> block_well_formed(#[trigger] blocks[i]),
        st.phase == Phase::Gap,
        st.blocks.len() == 0,
        at + nomai_format::body_lines(blocks, n).len() <= lines.len(),
        forall|i: int|
            0 <= i < nomai_format::body_lines(blocks, n).len() ==> lines[at + i]
                == #[trigger] nomai_format::body_lines(blocks, n)[i],
    ensures
        nomai_format::run(st, lines, at) == nomai_format::run(
            StateSpec {
                phase: if n == 0 {
                    Phase::Gap
                } else {
                    Phase::Body
                },
                blocks: blocks.map_values(|b: BlockSpec| block_as_strings(b)).take(n as int),
                ..st
            },
            lines,
            at + nomai_format::body_lines(blocks, n).len(),
        ),
    decreases n,
{
    let flat = blocks.map_values(|b: BlockSpec| block_as_strings(b));
    if n == 0 {
        assert(flat.take(0) =~= st.blocks);
    } else {
        let before = nomai_format::body_lines(blocks, (n - 1) as nat);
        let own = nomai_format::block_lines(blocks[n - 1]);
        let all = nomai_format::body_lines(blocks, n);
        assert(all == before + own);
        assert forall|i: int| 0 <= i < before.len() implies lines[at + i] == #[trigger] before[i] by {
            assert(lines[at + i] == all[i]);
        }
        lemma_body_steps(st, lines, at, blocks, (n - 1) as nat);
        let mid = StateSpec {
            phase: if n == 1 {
                Phase::Gap
            } else {
                Phase::Body
            },
            blocks: flat.take(n - 1),
            ..st
        };
        let from = at + before.len();
        assert forall|i: int| 0 <= i < own.len() implies lines[from + i] == #[trigger] own[i] by {
            assert(lines[at + (before.len() + i)] == all[before.len() + i]);
        }
        lemma_block_steps(mid, lines, from, blocks[n - 1]);
        assert(flat.take(n as int) =~= flat.take(n - 1).push(flat[n - 1]));
    }
}

proof fn lemma_field_lacks(key: Seq<char>, value: Seq<char>)
    requires
        escaping::lacks(key, '\n'),
    ensures
        escaping::lacks(nomai_format::field_line(key, value), '\n'),
{
    escaping::law_escape_round_trip(value, false);
}

proof fn lemma_joined_lacks(parts: Seq<Seq<char>>, c: char, x: char)
    requires
        c != x,
        forall|i: int| 0 <= i < parts.len() ==> escaping::lacks(#[trigger] parts[i], x),
    ensures
        escaping::lacks(escaping::joined_by(parts, c), x),
    decreases parts.len(),
{
    if parts.len() >= 2 {
        assert forall|i: int| 0 <= i < parts.drop_last().len() implies escaping::lacks(
            #[trigger] parts.drop_last()[i],
            x,
        ) by {
            assert(parts.drop_last()[i] == parts[i]);
        }
        lemma_joined_lacks(parts.drop_last(), c, x);
    }
}

proof fn lemma_header_lacks(d: DocSpec)
    ensures
        forall|i: int|
            0 <= i < nomai_format::header_lines(d).len() ==> escaping::lacks(
                #[trigger] nomai_format::header_lines(d)[i],
                '\n',
            ),
{
    lemma_keys();
    let head = nomai_format::header_lines(d);
    lemma_field_lacks("format_version"@, text::decimal(d.format_version as nat));
    lemma_field_lacks("id"@, ids::text_of_id(d.id));
    lemma_field_lacks("title"@, d.title);
    lemma_field_lacks("created_at"@, time::text_of_time(d.created_at));
    lemma_field_lacks("updated_at"@, time::text_of_time(d.updated_at));
    let parts = d.tags.map_values(|t: Seq<char>| escaping::escaped(t, true));
    assert forall|i: int| 0 <= i < parts.len() implies escaping::lacks(
        #[trigger] parts[i],
        '\n',
    ) by {
        escaping::law_escape_round_trip(d.tags[i], true);
    }
    lemma_joined_lacks(parts, ',', '\n');
    if let Some(s) = d.source {
        lemma_field_lacks("source"@, s);
    }
    let at6: nat = if d.tags.len() == 0 {
        5
    } else {
        6
    };
    let at7: nat = if d.source is Some {
        at6 + 1
    } else {
        at6
    };
    assert forall|i: int| 0 <= i < head.len() implies escaping::lacks(#[trigger] head[i], '\n') by {
        if i >= at7 {
            let m = d.attrs[i - at7];
            escaping::law_escape_round_trip(m.0, true);
            lemma_field_lacks("attr."@ + escaping::escaped(m.0, true), m.1.text());
            assert(head[i] == nomai_format::attr_line(m));
        }
    }
}

proof fn lemma_block_lacks(b: BlockSpec)
    ensures
        forall|i: int|
            0 <= i < nomai_format::block_lines(b).len() ==> escaping::lacks(
                #[trigger] nomai_format::block_lines(b)[i],
                '\n',
            ),
{
    let words = nomai_format::head_words(b);
    lemma_names(b.type_);
    assert forall|i: int| 0 <= i < words.len() implies escaping::lacks(
        #[trigger] words[i],
        '\n',
    ) by {
        if i > 0 {
            let m = b.attrs[i - 1];
            assert(words[i] == nomai_format::head_word(m));
            escaping::law_escape_round_trip(m.0, true);
            escaping::law_escape_round_trip(m.1.text(), true);
        }
    }
    lemma_joined_lacks(words, ' ', '\n');
    escaping::law_text_is_its_lines(b.text);
    let all = nomai_format::block_lines(b);
    assert forall|i: int| 0 <= i < all.len() implies escaping::lacks(#[trigger] all[i], '\n') by {
        if i >= 2 {
            let l = escaping::lines_of(b.text)[i - 2];
            assert(all[i] == nomai_format::shielded(l));
            assert(escaping::lacks(l, '\n'));
        }
    }
}

proof fn lemma_body_lacks(blocks: Seq<BlockSpec>, n: nat)
    requires
        n <= blocks.len(),
    ensures
        forall|i: int|
            0 <= i < nomai_format::body_lines(blocks, n).len() ==> escaping::lacks(
                #[trigger] nomai_format::body_lines(blocks, n)[i],
                '\n',
            ),
    decreases n,
{
    if n > 0 {
        lemma_body_lacks(blocks, (n - 1) as nat);
        lemma_block_lacks(blocks[n - 1]);
        let before = nomai_format::body_lines(blocks, (n - 1) as nat);
        let own = nomai_format::block_lines(blocks[n - 1]);
        let all = nomai_format::body_lines(blocks, n);
        assert forall|i: int| 0 <= i < all.len() implies escaping::lacks(
            #[trigger] all[i],
            '\n',
        ) by {
            if i < before.len() {
                assert(all[i] == before[i]);
            } else {
                assert(all[i] == own[i - before.len()]);
            }
        }
    }
}

/// A rendered document parses, to the same document with its attribute values
/// as strings, given that its two times read back.
pub(crate) proof fn lemma_render_parse(d: DocSpec)
    requires
        doc_well_formed(d),
        time::time_of_text(time::text_of_time(d.created_at)) == Some(d.created_at),
        time::time_of_text(time::text_of_time(d.updated_at)) == Some(d.updated_at),
    ensures
        nomai_format::parsed(nomai_format::rendered(d)) == Ok::<DocSpec, Fault>(doc_as_strings(d)),
{
    let lines = nomai_format::doc_lines(d);
    let head = nomai_format::header_lines(d);
    let body = nomai_format::body_lines(d.blocks, d.blocks.len());
    lemma_header_lacks(d);
    lemma_body_lacks(d.blocks, d.blocks.len());
    assert forall|i: int| 0 <= i < lines.len() implies escaping::lacks(
        #[trigger] lines[i],
        '\n',
    ) by {
        if i < head.len() {
            assert(lines[i] == head[i]);
        } else if i > head.len() {
            assert(lines[i] == body[i - head.len() - 1]);
        }
    }
    escaping::law_lines_round_trip(lines);
    assert(nomai_format::rendered(d).len() > 0);

    lemma_header_steps(d, lines);
    let st = StateSpec { phase: Phase::Header, header: full_header(d), blocks: Seq::empty() };
    let at = head.len();
    assert(lines[at as int] == Seq::<char>::empty());
    let gap = StateSpec { phase: Phase::Gap, ..st };
    assert(nomai_format::step(st, lines[at as int], at + 1) == Ok::<StateSpec, Fault>(gap));
    assert(nomai_format::run(st, lines, at) == nomai_format::run(gap, lines, at + 1));
    assert forall|i: int| 0 <= i < body.len() implies lines[at + 1 + i] == #[trigger] body[i] by {}
    lemma_body_steps(gap, lines, at + 1, d.blocks, d.blocks.len());
    let flat = d.blocks.map_values(|b: BlockSpec| block_as_strings(b));
    assert(flat.take(d.blocks.len() as int) =~= flat);
    assert(at + 1 + body.len() == lines.len());
}

} // verus!
