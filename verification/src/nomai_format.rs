//! The `.nomai` text format: how an entry stands on disk.
//!
//! A file has two sections:
//!
//! 1. A header of `#key value` lines, up to the first empty line. Its keys are
//!    `format_version`, `id`, `title`, `created_at`, `updated_at`, `tags`,
//!    `source`, and `attr.<name>` for each attribute of the entry.
//! 2. Blocks: a line `@type name=value ...`, an empty line, and the lines of
//!    the block's text, up to the next line that begins with `@`.
//!
//! A backslash escapes: `\\` is a backslash and `\n` a line break everywhere;
//! in names, tags and block attributes `\s`, `\e` and `\c` stand for a space,
//! an equals sign and a comma. A text line that begins with `@` or with a
//! backslash has one more backslash in front. Attribute values come back as
//! strings.
use vstd::prelude::*;
use vstd::string::*;

use crate::attrs::{self, AttrSpec, AttrValue, Attrs, Members};
use crate::escaping;
use crate::format_laws;
use crate::ids::{self, Id};
use crate::tables;
use crate::text;
use crate::time::{self, Timestamp};

verus! {

/// Closed set of block types.
#[derive(Debug, Clone, Copy, PartialEq, Eq, Structural)]
pub enum BlockType {
    Claim,
    Evidence,
    Question,
    Source,
    Note,
    Connection,
    Image,
}

impl BlockType {
    /// The name of a block type.
    pub open spec fn name(self) -> Seq<char> {
        match self {
            BlockType::Claim => "claim"@,
            BlockType::Evidence => "evidence"@,
            BlockType::Question => "question"@,
            BlockType::Source => "source"@,
            BlockType::Note => "note"@,
            BlockType::Connection => "connection"@,
            BlockType::Image => "image"@,
        }
    }

    /// The block type of a name.
    pub open spec fn named(s: Seq<char>) -> Option<BlockType> {
        if s == "claim"@ {
            Some(BlockType::Claim)
        } else if s == "evidence"@ {
            Some(BlockType::Evidence)
        } else if s == "question"@ {
            Some(BlockType::Question)
        } else if s == "source"@ {
            Some(BlockType::Source)
        } else if s == "note"@ {
            Some(BlockType::Note)
        } else if s == "connection"@ {
            Some(BlockType::Connection)
        } else if s == "image"@ {
            Some(BlockType::Image)
        } else {
            None
        }
    }

    pub fn as_str(&self) -> (s: &'static str)
        ensures
            s@ == self.name(),
    {
        match self {
            BlockType::Claim => "claim",
            BlockType::Evidence => "evidence",
            BlockType::Question => "question",
            BlockType::Source => "source",
            BlockType::Note => "note",
            BlockType::Connection => "connection",
            BlockType::Image => "image",
        }
    }

    pub fn from_str(s: &str) -> (r: Option<BlockType>)
        ensures
            r == BlockType::named(s@),
    {
        if text::same(s, "claim") {
            Some(BlockType::Claim)
        } else if text::same(s, "evidence") {
            Some(BlockType::Evidence)
        } else if text::same(s, "question") {
            Some(BlockType::Question)
        } else if text::same(s, "source") {
            Some(BlockType::Source)
        } else if text::same(s, "note") {
            Some(BlockType::Note)
        } else if text::same(s, "connection") {
            Some(BlockType::Connection)
        } else if text::same(s, "image") {
            Some(BlockType::Image)
        } else {
            None
        }
    }
}

/// A block type's name reads back as that type; names outside the set read as
/// none.
pub proof fn law_block_type_round_trip(ty: BlockType, s: Seq<char>)
    ensures
        BlockType::named(ty.name()) == Some(ty),
        BlockType::named(s) matches Some(t) ==> t.name() == s,
{
    reveal_strlit("claim");
    reveal_strlit("evidence");
    reveal_strlit("question");
    reveal_strlit("source");
    reveal_strlit("note");
    reveal_strlit("connection");
    reveal_strlit("image");
    assert("claim"@[0] == 'c' && "evidence"@[0] == 'e' && "question"@[0] == 'q' && "source"@[0]
        == 's' && "note"@[0] == 'n' && "image"@[0] == 'i' && "connection"@[0] == 'c');
    assert("claim"@[1] == 'l' && "connection"@[1] == 'o');
}

/// A parsed `.nomai` document.
#[derive(Debug, Clone)]
pub struct NomaiDoc {
    pub format_version: u32,
    pub id: Id,
    pub title: String,
    pub tags: Vec<String>,
    pub attrs: Attrs,
    pub source: Option<String>,
    pub created_at: Timestamp,
    pub updated_at: Timestamp,
    pub blocks: Vec<Block>,
}

/// One typed block in a document's body.
#[derive(Debug, Clone)]
pub struct Block {
    pub type_: BlockType,
    pub text: String,
    pub attrs: Attrs,
}

/// A block as mathematics.
#[verifier::ext_equal]
pub struct BlockSpec {
    pub type_: BlockType,
    pub text: Seq<char>,
    pub attrs: Members,
}

/// A document as mathematics.
#[verifier::ext_equal]
pub struct DocSpec {
    pub format_version: u32,
    pub id: Id,
    pub title: Seq<char>,
    pub tags: Seq<Seq<char>>,
    pub attrs: Members,
    pub source: Option<Seq<char>>,
    pub created_at: Timestamp,
    pub updated_at: Timestamp,
    pub blocks: Seq<BlockSpec>,
}

impl View for Block {
    type V = BlockSpec;

    open spec fn view(&self) -> BlockSpec {
        BlockSpec { type_: self.type_, text: self.text@, attrs: self.attrs@ }
    }
}

impl View for NomaiDoc {
    type V = DocSpec;

    open spec fn view(&self) -> DocSpec {
        DocSpec {
            format_version: self.format_version,
            id: self.id,
            title: self.title@,
            tags: text::texts(self.tags@),
            attrs: self.attrs@,
            source: tables::opt_text(self.source),
            created_at: self.created_at,
            updated_at: self.updated_at,
            blocks: self.blocks@.map_values(|b: Block| b@),
        }
    }
}

/// Parser error. `line` is 1-based; an error without a line precedes the
/// first.
#[derive(Debug, Clone)]
pub enum ParseError {
    MissingHeader { line: usize, key: &'static str },
    UnsupportedVersion { line: usize, version: String },
    UnknownBlockType { line: usize, ty: String },
    MissingConnectionAttr { line: usize, attr: &'static str },
    InvalidValue { line: usize, field: &'static str, reason: String },
    Syntax { line: usize, reason: String },
    EmptyInput,
}

/// A parser error as mathematics.
pub enum Fault {
    MissingHeader { line: nat, key: Seq<char> },
    UnsupportedVersion { line: nat, version: Seq<char> },
    UnknownBlockType { line: nat, ty: Seq<char> },
    MissingConnectionAttr { line: nat, attr: Seq<char> },
    InvalidValue { line: nat, field: Seq<char>, reason: Seq<char> },
    Syntax { line: nat, reason: Seq<char> },
    EmptyInput,
}

impl View for ParseError {
    type V = Fault;

    open spec fn view(&self) -> Fault {
        match self {
            ParseError::MissingHeader { line, key } => Fault::MissingHeader {
                line: *line as nat,
                key: key@,
            },
            ParseError::UnsupportedVersion { line, version } => Fault::UnsupportedVersion {
                line: *line as nat,
                version: version@,
            },
            ParseError::UnknownBlockType { line, ty } => Fault::UnknownBlockType {
                line: *line as nat,
                ty: ty@,
            },
            ParseError::MissingConnectionAttr { line, attr } => Fault::MissingConnectionAttr {
                line: *line as nat,
                attr: attr@,
            },
            ParseError::InvalidValue { line, field, reason } => Fault::InvalidValue {
                line: *line as nat,
                field: field@,
                reason: reason@,
            },
            ParseError::Syntax { line, reason } => Fault::Syntax {
                line: *line as nat,
                reason: reason@,
            },
            ParseError::EmptyInput => Fault::EmptyInput,
        }
    }
}

impl Fault {
    /// What the error says.
    pub open spec fn message(self) -> Seq<char> {
        match self {
            Fault::MissingHeader { line, key } => "line "@ + text::decimal(line)
                + ": missing required header key: "@ + key,
            Fault::UnsupportedVersion { line, version } => "line "@ + text::decimal(line)
                + ": unsupported format_version: "@ + version + " (only 1 supported)"@,
            Fault::UnknownBlockType { line, ty } => "line "@ + text::decimal(line)
                + ": unknown block type: "@ + ty,
            Fault::MissingConnectionAttr { line, attr } => "line "@ + text::decimal(line)
                + ": @connection missing required attr: "@ + attr,
            Fault::InvalidValue { line, field, reason } => "line "@ + text::decimal(line)
                + ": invalid value for "@ + field + ": "@ + reason,
            Fault::Syntax { line, reason } => "line "@ + text::decimal(line) + ": syntax error: "@
                + reason,
            Fault::EmptyInput => "empty input"@,
        }
    }
}

impl ParseError {
    /// What the error says.
    pub fn to_text(&self) -> (s: String)
        ensures
            s@ == self@.message(),
    {
        let mut s = String::new();
        match self {
            ParseError::MissingHeader { line, key } => {
                s = numbered(*line, ": missing required header key: ");
                s.append(key);
            },
            ParseError::UnsupportedVersion { line, version } => {
                s = numbered(*line, ": unsupported format_version: ");
                s.append(version.as_str());
                s.append(" (only 1 supported)");
            },
            ParseError::UnknownBlockType { line, ty } => {
                s = numbered(*line, ": unknown block type: ");
                s.append(ty.as_str());
            },
            ParseError::MissingConnectionAttr { line, attr } => {
                s = numbered(*line, ": @connection missing required attr: ");
                s.append(attr);
            },
            ParseError::InvalidValue { line, field, reason } => {
                s = numbered(*line, ": invalid value for ");
                s.append(field);
                s.append(": ");
                s.append(reason.as_str());
            },
            ParseError::Syntax { line, reason } => {
                s = numbered(*line, ": syntax error: ");
                s.append(reason.as_str());
            },
            ParseError::EmptyInput => {
                s.append("empty input");
                proof {
                    assert(Seq::<char>::empty() + "empty input"@ =~= "empty input"@);
                }
            },
        }
        s
    }
}

/// `line <line><rest>`.
fn numbered(line: usize, rest: &str) -> (s: String)
    ensures
        s@ == "line "@ + text::decimal(line as nat) + rest@,
{
    let n = text::decimal_text(line as u64);
    text::text3("line ", n.as_str(), rest)
}

/// What the header lines read so far say.
#[verifier::ext_equal]
pub struct HeaderSpec {
    pub versioned: bool,
    pub id: Option<Id>,
    pub title: Option<Seq<char>>,
    pub tags: Seq<Seq<char>>,
    pub attrs: Members,
    pub source: Option<Seq<char>>,
    pub created_at: Option<Timestamp>,
    pub updated_at: Option<Timestamp>,
}

impl HeaderSpec {
    pub open spec fn empty() -> HeaderSpec {
        HeaderSpec {
            versioned: false,
            id: None,
            title: None,
            tags: Seq::empty(),
            attrs: Seq::empty(),
            source: None,
            created_at: None,
            updated_at: None,
        }
    }

    /// The first required key that no line has given.
    pub open spec fn missing(self) -> Option<Seq<char>> {
        if !self.versioned {
            Some("format_version"@)
        } else if self.id is None {
            Some("id"@)
        } else if self.title is None {
            Some("title"@)
        } else if self.created_at is None {
            Some("created_at"@)
        } else if self.updated_at is None {
            Some("updated_at"@)
        } else {
            None
        }
    }
}

/// Where in a file the parser stands: in the header, between the header and
/// the first block, behind a block's first line, or in a block's text.
#[derive(Debug, Clone, Copy, PartialEq, Eq, Structural)]
pub enum Phase {
    Header,
    Gap,
    Head,
    Body,
}

/// What the lines read so far say.
#[verifier::ext_equal]
pub struct StateSpec {
    pub phase: Phase,
    pub header: HeaderSpec,
    pub blocks: Seq<BlockSpec>,
}

impl StateSpec {
    /// Behind the header nothing required is missing, and the text of a block
    /// has a block.
    pub open spec fn reachable(self) -> bool {
        &&& self.phase != Phase::Header ==> self.header.missing() is None
        &&& self.phase == Phase::Head || self.phase == Phase::Body ==> self.blocks.len() > 0
    }
}

/// All parts unescaped; none where one cannot be.
pub open spec fn all_unescaped(parts: Seq<Seq<char>>, n: nat) -> Option<Seq<Seq<char>>>
    decreases n,
{
    if n == 0 {
        Some(Seq::empty())
    } else {
        match (all_unescaped(parts, (n - 1) as nat), escaping::unescaped(parts[n - 1])) {
            (Some(done), Some(part)) => Some(done.push(part)),
            _ => None,
        }
    }
}

/// The header after a line gave `key` the written value `value`.
pub open spec fn header_field(
    h: HeaderSpec,
    key: Seq<char>,
    value: Seq<char>,
    line: nat,
) -> Result<HeaderSpec, Fault> {
    if key == "tags"@ {
        let parts = text::split_on(value, seq![',']);
        match all_unescaped(parts, parts.len()) {
            Some(tags) => Ok(HeaderSpec { tags, ..h }),
            None => Err(Fault::Syntax { line, reason: "invalid escape"@ }),
        }
    } else {
        match escaping::unescaped(value) {
            None => Err(Fault::Syntax { line, reason: "invalid escape"@ }),
            Some(v) => if key == "format_version"@ {
                if v == "1"@ {
                    Ok(HeaderSpec { versioned: true, ..h })
                } else {
                    Err(Fault::UnsupportedVersion { line, version: v })
                }
            } else if key == "id"@ {
                match ids::id_of_text(v) {
                    Some(id) => Ok(HeaderSpec { id: Some(id), ..h }),
                    None => Err(
                        Fault::InvalidValue { line, field: "id"@, reason: "not an identifier"@ },
                    ),
                }
            } else if key == "title"@ {
                Ok(HeaderSpec { title: Some(v), ..h })
            } else if key == "source"@ {
                Ok(HeaderSpec { source: Some(v), ..h })
            } else if key == "created_at"@ {
                match time::time_of_text(v) {
                    Some(t) => Ok(HeaderSpec { created_at: Some(t), ..h }),
                    None => Err(
                        Fault::InvalidValue {
                            line,
                            field: "created_at"@,
                            reason: "not an RFC 3339 time"@,
                        },
                    ),
                }
            } else if key == "updated_at"@ {
                match time::time_of_text(v) {
                    Some(t) => Ok(HeaderSpec { updated_at: Some(t), ..h }),
                    None => Err(
                        Fault::InvalidValue {
                            line,
                            field: "updated_at"@,
                            reason: "not an RFC 3339 time"@,
                        },
                    ),
                }
            } else if text::occurs_at(key, "attr."@, 0) {
                match escaping::unescaped(key.skip(5)) {
                    Some(name) => Ok(
                        HeaderSpec {
                            attrs: attrs::with_member(h.attrs, name, AttrSpec::Text(v)),
                            ..h
                        },
                    ),
                    None => Err(Fault::Syntax { line, reason: "invalid escape"@ }),
                }
            } else {
                Err(Fault::Syntax { line, reason: "unknown header key"@ })
            },
        }
    }
}

/// The header after the line `#rest`.
pub open spec fn header_line(h: HeaderSpec, rest: Seq<char>, line: nat) -> Result<HeaderSpec, Fault> {
    if text::occurs(rest, seq![' ']) {
        let at = text::first_index(rest, seq![' ']);
        header_field(h, rest.take(at), rest.skip(at + 1), line)
    } else {
        Err(Fault::Syntax { line, reason: "expected `#key value`"@ })
    }
}

/// The attributes that the first `n` words behind a block's type give.
pub open spec fn head_attrs(words: Seq<Seq<char>>, n: nat, line: nat) -> Result<Members, Fault>
    decreases n,
{
    if n == 0 {
        Ok(Seq::empty())
    } else {
        match head_attrs(words, (n - 1) as nat, line) {
            Err(e) => Err(e),
            Ok(members) => {
                let word = words[n as int];
                if text::occurs(word, seq!['=']) {
                    let at = text::first_index(word, seq!['=']);
                    match (
                        escaping::unescaped(word.take(at)),
                        escaping::unescaped(word.skip(at + 1)),
                    ) {
                        (Some(name), Some(value)) => Ok(
                            attrs::with_member(members, name, AttrSpec::Text(value)),
                        ),
                        _ => Err(Fault::Syntax { line, reason: "invalid escape"@ }),
                    }
                } else {
                    Err(Fault::Syntax { line, reason: "expected `name=value`"@ })
                }
            },
        }
    }
}

/// The block that the line `@rest` opens. A connection names its target and
/// its relation.
pub open spec fn block_head(rest: Seq<char>, line: nat) -> Result<BlockSpec, Fault> {
    let words = text::split_on(rest, seq![' ']);
    match BlockType::named(words[0]) {
        None => Err(Fault::UnknownBlockType { line, ty: words[0] }),
        Some(type_) => match head_attrs(words, (words.len() - 1) as nat, line) {
            Err(e) => Err(e),
            Ok(members) => if type_ == BlockType::Connection && !attrs::has_key(
                members,
                "target"@,
            ) {
                Err(Fault::MissingConnectionAttr { line, attr: "target"@ })
            } else if type_ == BlockType::Connection && !attrs::has_key(members, "relation"@) {
                Err(Fault::MissingConnectionAttr { line, attr: "relation"@ })
            } else {
                Ok(BlockSpec { type_, text: Seq::empty(), attrs: members })
            },
        },
    }
}

/// A text line without the backslash that shields its first character.
pub open spec fn unshielded(line: Seq<char>) -> Seq<char> {
    if text::begins_with(line, '\\') {
        line.skip(1)
    } else {
        line
    }
}

/// The state after one more line, the `n`th.
pub open spec fn step(st: StateSpec, line: Seq<char>, n: nat) -> Result<StateSpec, Fault> {
    if text::begins_with(line, '@') {
        match (st.phase, st.header.missing()) {
            (Phase::Header, Some(key)) => Err(Fault::MissingHeader { line: n, key }),
            _ => match block_head(line.skip(1), n) {
                Ok(block) => Ok(
                    StateSpec { phase: Phase::Head, blocks: st.blocks.push(block), ..st },
                ),
                Err(e) => Err(e),
            },
        }
    } else {
        match st.phase {
            Phase::Header => if line.len() == 0 {
                match st.header.missing() {
                    Some(key) => Err(Fault::MissingHeader { line: n, key }),
                    None => Ok(StateSpec { phase: Phase::Gap, ..st }),
                }
            } else if text::begins_with(line, '#') {
                match header_line(st.header, line.skip(1), n) {
                    Ok(header) => Ok(StateSpec { header, ..st }),
                    Err(e) => Err(e),
                }
            } else {
                Err(Fault::Syntax { line: n, reason: "expected `#key value`"@ })
            },
            Phase::Gap => if line.len() == 0 {
                Ok(st)
            } else {
                Err(Fault::Syntax { line: n, reason: "expected a block"@ })
            },
            Phase::Head => if line.len() == 0 {
                Ok(StateSpec { phase: Phase::Body, ..st })
            } else {
                Err(Fault::Syntax { line: n, reason: "expected an empty line"@ })
            },
            Phase::Body => {
                let block = st.blocks.last();
                let longer = BlockSpec {
                    text: block.text + unshielded(line) + seq!['\n'],
                    ..block
                };
                Ok(StateSpec { blocks: st.blocks.drop_last().push(longer), ..st })
            },
        }
    }
}

/// The state after the lines from `at` on.
pub open spec fn run(st: StateSpec, lines: Seq<Seq<char>>, at: nat) -> Result<StateSpec, Fault>
    decreases lines.len() - at,
{
    if at >= lines.len() {
        Ok(st)
    } else {
        match step(st, lines[at as int], at + 1) {
            Ok(next) => run(next, lines, at + 1),
            Err(e) => Err(e),
        }
    }
}

/// The document that a state stands for.
pub open spec fn doc_of(st: StateSpec) -> DocSpec {
    DocSpec {
        format_version: 1,
        id: st.header.id->0,
        title: st.header.title->0,
        tags: st.header.tags,
        attrs: st.header.attrs,
        source: st.header.source,
        created_at: st.header.created_at->0,
        updated_at: st.header.updated_at->0,
        blocks: st.blocks,
    }
}

/// The state before the first line.
pub open spec fn initial() -> StateSpec {
    StateSpec { phase: Phase::Header, header: HeaderSpec::empty(), blocks: Seq::empty() }
}

/// The document that a text holds, or what is wrong with it.
pub open spec fn parsed(input: Seq<char>) -> Result<DocSpec, Fault> {
    if input.len() == 0 {
        Err(Fault::EmptyInput)
    } else {
        let lines = escaping::lines_of(input);
        match run(initial(), lines, 0) {
            Err(e) => Err(e),
            Ok(st) => match (st.phase, st.header.missing()) {
                (Phase::Header, Some(key)) => Err(Fault::MissingHeader { line: lines.len(), key }),
                _ => Ok(doc_of(st)),
            },
        }
    }
}

/// The line that gives `key` the value `value`.
pub open spec fn field_line(key: Seq<char>, value: Seq<char>) -> Seq<char> {
    seq!['#'] + key + seq![' '] + escaping::escaped(value, false)
}

/// The line of one attribute of the entry.
pub open spec fn attr_line(member: (Seq<char>, AttrSpec)) -> Seq<char> {
    field_line("attr."@ + escaping::escaped(member.0, true), member.1.text())
}

/// The tags as one value.
pub open spec fn tags_value(tags: Seq<Seq<char>>) -> Seq<char> {
    escaping::joined_by(tags.map_values(|t: Seq<char>| escaping::escaped(t, true)), ',')
}

/// The header lines of a document.
pub open spec fn header_lines(d: DocSpec) -> Seq<Seq<char>> {
    let required = seq![
        field_line("format_version"@, text::decimal(d.format_version as nat)),
        field_line("id"@, ids::text_of_id(d.id)),
        field_line("title"@, d.title),
        field_line("created_at"@, time::text_of_time(d.created_at)),
        field_line("updated_at"@, time::text_of_time(d.updated_at)),
    ];
    let tags = if d.tags.len() == 0 {
        Seq::<Seq<char>>::empty()
    } else {
        seq![seq!['#'] + "tags"@ + seq![' '] + tags_value(d.tags)]
    };
    let source = match d.source {
        Some(s) => seq![field_line("source"@, s)],
        None => Seq::<Seq<char>>::empty(),
    };
    required + tags + source + d.attrs.map_values(|m: (Seq<char>, AttrSpec)| attr_line(m))
}

/// One attribute in a block's first line.
pub open spec fn head_word(member: (Seq<char>, AttrSpec)) -> Seq<char> {
    escaping::escaped(member.0, true) + seq!['='] + escaping::escaped(member.1.text(), true)
}

/// The words of a block's first line.
pub open spec fn head_words(b: BlockSpec) -> Seq<Seq<char>> {
    seq![b.type_.name()] + b.attrs.map_values(|m: (Seq<char>, AttrSpec)| head_word(m))
}

/// A text line as it is written.
pub open spec fn shielded(line: Seq<char>) -> Seq<char> {
    if text::begins_with(line, '@') || text::begins_with(line, '\\') {
        seq!['\\'] + line
    } else {
        line
    }
}

/// The lines of a block.
pub open spec fn block_lines(b: BlockSpec) -> Seq<Seq<char>> {
    seq![seq!['@'] + escaping::joined_by(head_words(b), ' '), Seq::<char>::empty()]
        + escaping::lines_of(b.text).map_values(|l: Seq<char>| shielded(l))
}

/// The lines of the first `n` blocks.
pub open spec fn body_lines(blocks: Seq<BlockSpec>, n: nat) -> Seq<Seq<char>>
    decreases n,
{
    if n == 0 {
        Seq::empty()
    } else {
        body_lines(blocks, (n - 1) as nat) + block_lines(blocks[n - 1])
    }
}

/// The lines of a document.
pub open spec fn doc_lines(d: DocSpec) -> Seq<Seq<char>> {
    header_lines(d) + seq![Seq::<char>::empty()] + body_lines(d.blocks, d.blocks.len())
}

/// The text of a document.
pub open spec fn rendered(d: DocSpec) -> Seq<char> {
    escaping::unlines(doc_lines(d))
}

struct Header {
    versioned: bool,
    id: Option<Id>,
    title: Option<String>,
    tags: Vec<String>,
    attrs: Attrs,
    source: Option<String>,
    created_at: Option<Timestamp>,
    updated_at: Option<Timestamp>,
}

impl View for Header {
    type V = HeaderSpec;

    closed spec fn view(&self) -> HeaderSpec {
        HeaderSpec {
            versioned: self.versioned,
            id: self.id,
            title: tables::opt_text(self.title),
            tags: text::texts(self.tags@),
            attrs: self.attrs@,
            source: tables::opt_text(self.source),
            created_at: self.created_at,
            updated_at: self.updated_at,
        }
    }
}

struct State {
    phase: Phase,
    header: Header,
    blocks: Vec<Block>,
}

impl View for State {
    type V = StateSpec;

    closed spec fn view(&self) -> StateSpec {
        StateSpec {
            phase: self.phase,
            header: self.header@,
            blocks: self.blocks@.map_values(|b: Block| b@),
        }
    }
}

/// `r` says of a step what `expected` says.
spec fn agrees<T>(r: Result<(), ParseError>, after: T, expected: Result<T, Fault>) -> bool {
    match r {
        Ok(()) => expected == Ok::<T, Fault>(after),
        Err(e) => expected == Err::<T, Fault>(e@),
    }
}

fn syntax(line: usize, reason: &str) -> (e: ParseError)
    ensures
        e@ == (Fault::Syntax { line: line as nat, reason: reason@ }),
{
    ParseError::Syntax { line, reason: reason.to_owned() }
}

impl Header {
    fn missing_key(&self) -> (key: Option<&'static str>)
        ensures
            match key {
                Some(k) => self@.missing() == Some(k@),
                None => self@.missing() is None,
            },
    {
        if !self.versioned {
            Some("format_version")
        } else if self.id.is_none() {
            Some("id")
        } else if self.title.is_none() {
            Some("title")
        } else if self.created_at.is_none() {
            Some("created_at")
        } else if self.updated_at.is_none() {
            Some("updated_at")
        } else {
            None
        }
    }

    fn set_tags(&mut self, value: &str, line: usize) -> (r: Result<(), ParseError>)
        ensures
            agrees(r, final(self)@, header_field(old(self)@, "tags"@, value@, line as nat)),
    {
        let comma: Vec<char> = vec![','];
        proof {
            assert(comma@ =~= seq![',']);
        }
        let parts = text::split_text(value, &comma);
        let ghost all = text::split_on(value@, seq![',']);
        let mut tags: Vec<String> = Vec::new();
        let mut i: usize = 0;
        proof {
            assert(text::texts(tags@) =~= Seq::empty());
        }
        while i < parts.len()
            invariant
                i <= parts.len(),
                text::texts(parts@) == all,
                all == text::split_on(value@, seq![',']),
                all_unescaped(all, i as nat) == Some(text::texts(tags@)),
            decreases parts.len() - i,
        {
            let chars = text::chars_of(parts[i].as_str());
            proof {
                assert(all[i as int] == parts@[i as int]@);
                assert(chars@.subrange(0, chars@.len() as int) =~= chars@);
            }
            match escaping::unescape_chars(&chars, 0, chars.len()) {
                Some(tag) => {
                    let ghost before = tags@;
                    tags.push(tag);
                    proof {
                        assert(text::texts(tags@) =~= text::texts(before).push(tag@));
                    }
                },
                None => {
                    proof {
                        lemma_unescaped_none(all, (i + 1) as nat, all.len());
                    }
                    return Err(syntax(line, "invalid escape"));
                },
            }
            i += 1;
        }
        self.tags = tags;
        Ok(())
    }

    fn set_field(&mut self, key: &Vec<char>, value: &str, line: usize) -> (r: Result<
        (),
        ParseError,
    >)
        ensures
            agrees(r, final(self)@, header_field(old(self)@, key@, value@, line as nat)),
    {
        let name = text::string_of(key, 0, key.len());
        let name = name.as_str();
        proof {
            assert(key@.subrange(0, key@.len() as int) =~= key@);
        }
        if text::same(name, "tags") {
            return self.set_tags(value, line);
        }
        let chars = text::chars_of(value);
        proof {
            assert(chars@.subrange(0, chars@.len() as int) =~= chars@);
        }
        let v = match escaping::unescape_chars(&chars, 0, chars.len()) {
            Some(v) => v,
            None => {
                return Err(syntax(line, "invalid escape"));
            },
        };
        if text::same(name, "format_version") {
            if text::same(v.as_str(), "1") {
                self.versioned = true;
                Ok(())
            } else {
                Err(ParseError::UnsupportedVersion { line, version: v })
            }
        } else if text::same(name, "id") {
            match ids::parse_id(v.as_str()) {
                Some(id) => {
                    self.id = Some(id);
                    Ok(())
                },
                None => Err(
                    ParseError::InvalidValue {
                        line,
                        field: "id",
                        reason: "not an identifier".to_owned(),
                    },
                ),
            }
        } else if text::same(name, "title") {
            self.title = Some(v);
            Ok(())
        } else if text::same(name, "source") {
            self.source = Some(v);
            Ok(())
        } else if text::same(name, "created_at") {
            match time::parse_time(v.as_str()) {
                Some(t) => {
                    self.created_at = Some(t);
                    Ok(())
                },
                None => Err(
                    ParseError::InvalidValue {
                        line,
                        field: "created_at",
                        reason: "not an RFC 3339 time".to_owned(),
                    },
                ),
            }
        } else if text::same(name, "updated_at") {
            match time::parse_time(v.as_str()) {
                Some(t) => {
                    self.updated_at = Some(t);
                    Ok(())
                },
                None => Err(
                    ParseError::InvalidValue {
                        line,
                        field: "updated_at",
                        reason: "not an RFC 3339 time".to_owned(),
                    },
                ),
            }
        } else {
            let prefix: Vec<char> = text::chars_of("attr.");
            proof {
                reveal_strlit("attr.");
                assert(prefix@.len() == 5);
            }
            if text::matches_at(key, &prefix, 0) {
                proof {
                    assert(key@.subrange(5, key@.len() as int) =~= key@.skip(5));
                }
                match escaping::unescape_chars(key, 5, key.len()) {
                    Some(attr) => {
                        self.attrs.set(attr, AttrValue::Text(v));
                        Ok(())
                    },
                    None => Err(syntax(line, "invalid escape")),
                }
            } else {
                Err(syntax(line, "unknown header key"))
            }
        }
    }
}

proof fn lemma_unescaped_none(parts: Seq<Seq<char>>, n: nat, m: nat)
    requires
        n <= m,
        all_unescaped(parts, n) is None,
    ensures
        all_unescaped(parts, m) is None,
    decreases m,
{
    if n < m {
        lemma_unescaped_none(parts, n, (m - 1) as nat);
    }
}

proof fn lemma_head_attrs_err(words: Seq<Seq<char>>, n: nat, m: nat, line: nat)
    requires
        n <= m,
        head_attrs(words, n, line) is Err,
    ensures
        head_attrs(words, m, line) == head_attrs(words, n, line),
    decreases m,
{
    if n < m {
        lemma_head_attrs_err(words, n, (m - 1) as nat, line);
    }
}

/// The attributes that the words behind a block's type give.
fn parse_head_attrs(words: &Vec<String>, line: usize) -> (r: Result<Attrs, ParseError>)
    requires
        words.len() > 0,
    ensures
        match r {
            Ok(a) => head_attrs(text::texts(words@), (words.len() - 1) as nat, line as nat) == Ok::<
                Members,
                Fault,
            >(a@),
            Err(e) => head_attrs(text::texts(words@), (words.len() - 1) as nat, line as nat)
                == Err::<Members, Fault>(e@),
        },
{
    let ghost all = text::texts(words@);
    let eq: Vec<char> = vec!['='];
    proof {
        assert(eq@ =~= seq!['=']);
    }
    let mut found = Attrs::new();
    let mut i: usize = 1;
    while i < words.len()
        invariant
            1 <= i <= words.len(),
            eq@ == seq!['='],
            all == text::texts(words@),
            head_attrs(all, (i - 1) as nat, line as nat) == Ok::<Members, Fault>(found@),
        decreases words.len() - i,
    {
        let word = text::chars_of(words[i].as_str());
        proof {
            assert(all[i as int] == words@[i as int]@);
            assert(word@.skip(0) =~= word@);
        }
        match text::find_from(&word, &eq, 0) {
            Some(at) => {
                proof {
                    text::lemma_first_unique(word@, eq@, at as int);
                    assert(word@.subrange(0, at as int) =~= word@.take(at as int));
                    assert(word@.subrange(at + 1, word@.len() as int) =~= word@.skip(at + 1));
                }
                let name = escaping::unescape_chars(&word, 0, at);
                let value = escaping::unescape_chars(&word, at + 1, word.len());
                match (name, value) {
                    (Some(name), Some(value)) => {
                        found.set(name, AttrValue::Text(value));
                    },
                    _ => {
                        proof {
                            lemma_head_attrs_err(all, i as nat, (words.len() - 1) as nat, line as nat);
                        }
                        return Err(syntax(line, "invalid escape"));
                    },
                }
            },
            None => {
                proof {
                    lemma_head_attrs_err(all, i as nat, (words.len() - 1) as nat, line as nat);
                }
                return Err(syntax(line, "expected `name=value`"));
            },
        }
        i += 1;
    }
    Ok(found)
}

/// The block that the line `@rest` opens.
fn parse_block_head(rest: &str, line: usize) -> (r: Result<Block, ParseError>)
    ensures
        match r {
            Ok(b) => block_head(rest@, line as nat) == Ok::<BlockSpec, Fault>(b@),
            Err(e) => block_head(rest@, line as nat) == Err::<BlockSpec, Fault>(e@),
        },
{
    let space: Vec<char> = vec![' '];
    proof {
        assert(space@ =~= seq![' ']);
    }
    let words = text::split_text(rest, &space);
    let ghost all = text::split_on(rest@, seq![' ']);
    proof {
        assert(all.len() > 0);
        assert(text::texts(words@)[0] == words@[0]@);
    }
    let type_ = match BlockType::from_str(words[0].as_str()) {
        Some(t) => t,
        None => {
            return Err(ParseError::UnknownBlockType { line, ty: words[0].clone() });
        },
    };
    let found = match parse_head_attrs(&words, line) {
        Ok(a) => a,
        Err(e) => {
            return Err(e);
        },
    };
    if type_ == BlockType::Connection && found.get("target").is_none() {
        return Err(ParseError::MissingConnectionAttr { line, attr: "target" });
    }
    if type_ == BlockType::Connection && found.get("relation").is_none() {
        return Err(ParseError::MissingConnectionAttr { line, attr: "relation" });
    }
    Ok(Block { type_, text: String::new(), attrs: found })
}

impl State {
    /// Read one more line.
    fn read_line(&mut self, s: &str, line: usize) -> (r: Result<(), ParseError>)
        requires
            old(self)@.reachable(),
        ensures
            agrees(r, final(self)@, step(old(self)@, s@, line as nat)),
            r is Ok ==> final(self)@.reachable(),
    {
        let chars = text::chars_of(s);
        let first: Option<char> = if chars.len() > 0 {
            Some(chars[0])
        } else {
            None
        };
        let rest = if chars.len() > 0 {
            text::string_of(&chars, 1, chars.len())
        } else {
            String::new()
        };
        proof {
            if chars@.len() > 0 {
                assert(chars@.subrange(1, chars@.len() as int) =~= s@.skip(1));
            }
        }
        if first == Some('@') {
            if self.phase == Phase::Header {
                if let Some(key) = self.header.missing_key() {
                    return Err(ParseError::MissingHeader { line, key });
                }
            }
            match parse_block_head(rest.as_str(), line) {
                Ok(block) => {
                    let ghost before = self.blocks@;
                    self.blocks.push(block);
                    self.phase = Phase::Head;
                    proof {
                        assert(self@.blocks =~= before.map_values(|b: Block| b@).push(block@));
                    }
                    return Ok(());
                },
                Err(e) => {
                    return Err(e);
                },
            }
        }
        match self.phase {
            Phase::Header => {
                if chars.len() == 0 {
                    match self.header.missing_key() {
                        Some(key) => Err(ParseError::MissingHeader { line, key }),
                        None => {
                            self.phase = Phase::Gap;
                            Ok(())
                        },
                    }
                } else if first == Some('#') {
                    self.read_header_line(rest.as_str(), line)
                } else {
                    Err(syntax(line, "expected `#key value`"))
                }
            },
            Phase::Gap => {
                if chars.len() == 0 {
                    Ok(())
                } else {
                    Err(syntax(line, "expected a block"))
                }
            },
            Phase::Head => {
                if chars.len() == 0 {
                    self.phase = Phase::Body;
                    Ok(())
                } else {
                    Err(syntax(line, "expected an empty line"))
                }
            },
            Phase::Body => {
                let ghost before = self@;
                let ghost held = self.blocks@;
                let mut block = self.blocks.pop().unwrap();
                let ghost last = block@;
                proof {
                    assert(before.blocks.last() == last);
                }
                if first == Some('\\') {
                    block.text.append(rest.as_str());
                } else {
                    block.text.append(s);
                }
                block.text.push('\n');
                let ghost longer = block@;
                self.blocks.push(block);
                proof {
                    assert(longer.text =~= last.text + unshielded(s@) + seq!['\n']);
                    assert(self@.blocks =~= before.blocks.drop_last().push(longer));
                }
                Ok(())
            },
        }
    }

    fn read_header_line(&mut self, rest: &str, line: usize) -> (r: Result<(), ParseError>)
        ensures
            final(self)@.phase == old(self)@.phase,
            final(self)@.blocks == old(self)@.blocks,
            agrees(r, final(self)@.header, header_line(old(self)@.header, rest@, line as nat)),
    {
        let chars = text::chars_of(rest);
        let space: Vec<char> = vec![' '];
        proof {
            assert(space@ =~= seq![' ']);
            assert(chars@.skip(0) =~= chars@);
        }
        match text::find_from(&chars, &space, 0) {
            Some(at) => {
                let name = text::string_of(&chars, 0, at);
                let key = text::chars_of(name.as_str());
                let value = text::string_of(&chars, at + 1, chars.len());
                proof {
                    text::lemma_first_unique(rest@, space@, at as int);
                    assert(key@ =~= rest@.take(at as int));
                    assert(value@ =~= rest@.skip(at + 1));
                }
                self.header.set_field(&key, value.as_str(), line)
            },
            None => Err(syntax(line, "expected `#key value`")),
        }
    }
}

/// Parse a `.nomai` document.
pub fn parse(input: &str) -> (r: Result<NomaiDoc, ParseError>)
    ensures
        match r {
            Ok(doc) => parsed(input@) == Ok::<DocSpec, Fault>(doc@),
            Err(e) => parsed(input@) == Err::<DocSpec, Fault>(e@),
        },
{
    if input.is_empty() {
        return Err(ParseError::EmptyInput);
    }
    let lines = escaping::split_lines(input);
    let ghost all = escaping::lines_of(input@);
    let mut st = State {
        phase: Phase::Header,
        header: Header {
            versioned: false,
            id: None,
            title: None,
            tags: Vec::new(),
            attrs: Attrs::new(),
            source: None,
            created_at: None,
            updated_at: None,
        },
        blocks: Vec::new(),
    };
    proof {
        assert(st@.header.tags =~= Seq::empty());
        assert(st@.blocks =~= Seq::empty());
        assert(st@ =~= initial());
    }
    let mut i: usize = 0;
    while i < lines.len()
        invariant
            i <= lines.len(),
            text::texts(lines@) == all,
            all == escaping::lines_of(input@),
            input@.len() > 0,
            run(initial(), all, 0) == run(st@, all, i as nat),
            st@.reachable(),
        decreases lines.len() - i,
    {
        proof {
            assert(all[i as int] == lines@[i as int]@);
        }
        match st.read_line(lines[i].as_str(), i + 1) {
            Ok(()) => {},
            Err(e) => {
                return Err(e);
            },
        }
        i += 1;
    }
    if st.phase == Phase::Header {
        if let Some(key) = st.header.missing_key() {
            return Err(ParseError::MissingHeader { line: lines.len(), key });
        }
    }
    let State { phase: _, header, blocks } = st;
    match (header.id, header.title, header.created_at, header.updated_at) {
        (Some(id), Some(title), Some(created_at), Some(updated_at)) => {
            Ok(
                NomaiDoc {
                    format_version: 1,
                    id,
                    title,
                    tags: header.tags,
                    attrs: header.attrs,
                    source: header.source,
                    created_at,
                    updated_at,
                    blocks,
                },
            )
        },
        _ => Err(ParseError::EmptyInput),
    }
}

/// `lines` with one more line at the end.
proof fn lemma_texts_push(lines: Seq<String>, line: String)
    ensures
        text::texts(lines.push(line)) == text::texts(lines).push(line@),
{
    assert(text::texts(lines.push(line)) =~= text::texts(lines).push(line@));
}

/// The line that gives `key` the value `value`.
fn write_field(key: &str, value: &str) -> (line: String)
    ensures
        line@ == field_line(key@, value@),
{
    let mut line = String::new();
    line.push('#');
    line.append(key);
    line.push(' ');
    let written = escaping::escape_text(value, false);
    line.append(written.as_str());
    proof {
        assert(line@ =~= field_line(key@, value@));
    }
    line
}

/// The tags as one value.
fn write_tags(tags: &Vec<String>) -> (s: String)
    ensures
        s@ == tags_value(text::texts(tags@)),
{
    let mut parts: Vec<String> = Vec::new();
    let mut i: usize = 0;
    let ghost all = text::texts(tags@).map_values(|t: Seq<char>| escaping::escaped(t, true));
    while i < tags.len()
        invariant
            i <= tags.len(),
            all == text::texts(tags@).map_values(|t: Seq<char>| escaping::escaped(t, true)),
            text::texts(parts@) == all.take(i as int),
        decreases tags.len() - i,
    {
        let part = escaping::escape_text(tags[i].as_str(), true);
        proof {
            lemma_texts_push(parts@, part);
            assert(all[i as int] == part@);
            assert(all.take(i + 1) =~= all.take(i as int).push(part@));
        }
        parts.push(part);
        i += 1;
    }
    proof {
        assert(all.take(i as int) =~= all);
    }
    escaping::join_by(&parts, ',')
}

/// The header lines of a document.
fn write_header(doc: &NomaiDoc) -> (lines: Vec<String>)
    requires
        doc.created_at.valid(),
        doc.updated_at.valid(),
    ensures
        text::texts(lines@) == header_lines(doc@),
        doc.created_at.four_digit_year() ==> time::time_of_text(time::text_of_time(doc.created_at))
            == Some(doc.created_at),
        doc.updated_at.four_digit_year() ==> time::time_of_text(time::text_of_time(doc.updated_at))
            == Some(doc.updated_at),
{
    let mut lines: Vec<String> = Vec::new();
    let version = text::decimal_text(doc.format_version as u64);
    lines.push(write_field("format_version", version.as_str()));
    let id = ids::id_text(doc.id);
    lines.push(write_field("id", id.as_str()));
    lines.push(write_field("title", doc.title.as_str()));
    let created = time::time_text(doc.created_at);
    lines.push(write_field("created_at", created.as_str()));
    let updated = time::time_text(doc.updated_at);
    lines.push(write_field("updated_at", updated.as_str()));
    let ghost d = doc@;
    let ghost required = seq![
        field_line("format_version"@, text::decimal(d.format_version as nat)),
        field_line("id"@, ids::text_of_id(d.id)),
        field_line("title"@, d.title),
        field_line("created_at"@, time::text_of_time(d.created_at)),
        field_line("updated_at"@, time::text_of_time(d.updated_at)),
    ];
    proof {
        assert(text::texts(lines@) =~= required);
    }
    let ghost tags_part = if d.tags.len() == 0 {
        Seq::<Seq<char>>::empty()
    } else {
        seq![seq!['#'] + "tags"@ + seq![' '] + tags_value(d.tags)]
    };
    if doc.tags.len() > 0 {
        let value = write_tags(&doc.tags);
        let mut line = String::new();
        line.push('#');
        line.append("tags");
        line.push(' ');
        line.append(value.as_str());
        proof {
            assert(line@ =~= seq!['#'] + "tags"@ + seq![' '] + tags_value(d.tags));
            lemma_texts_push(lines@, line);
        }
        lines.push(line);
    }
    proof {
        assert(text::texts(lines@) =~= required + tags_part);
    }
    let ghost source_part = match d.source {
        Some(s) => seq![field_line("source"@, s)],
        None => Seq::<Seq<char>>::empty(),
    };
    if let Some(source) = &doc.source {
        let line = write_field("source", source.as_str());
        proof {
            lemma_texts_push(lines@, line);
        }
        lines.push(line);
    }
    proof {
        assert(text::texts(lines@) =~= required + tags_part + source_part);
    }
    let ghost before = required + tags_part + source_part;
    let ghost all = d.attrs.map_values(|m: (Seq<char>, AttrSpec)| attr_line(m));
    let mut i: usize = 0;
    proof {
        assert(before + all.take(0) =~= before);
    }
    while i < doc.attrs.members.len()
        invariant
            i <= doc.attrs.members.len(),
            all == doc.attrs@.map_values(|m: (Seq<char>, AttrSpec)| attr_line(m)),
            text::texts(lines@) == before + all.take(i as int),
        decreases doc.attrs.members.len() - i,
    {
        let name = escaping::escape_text(doc.attrs.members[i].0.as_str(), true);
        let key = text::text2("attr.", name.as_str());
        let line = write_field(key.as_str(), doc.attrs.members[i].1.as_text());
        proof {
            assert(doc.attrs@[i as int] == (
                doc.attrs.members@[i as int].0@,
                doc.attrs.members@[i as int].1@,
            ));
            assert(all[i as int] == line@);
            lemma_texts_push(lines@, line);
            assert(before + all.take(i + 1) =~= (before + all.take(i as int)).push(line@));
        }
        lines.push(line);
        i += 1;
    }
    proof {
        assert(all.take(i as int) =~= all);
    }
    lines
}

/// The first line of a block.
fn write_block_head(block: &Block) -> (line: String)
    ensures
        line@ == seq!['@'] + escaping::joined_by(head_words(block@), ' '),
{
    let mut words: Vec<String> = Vec::new();
    words.push(block.type_.as_str().to_owned());
    let ghost all = head_words(block@);
    let mut i: usize = 0;
    proof {
        assert(text::texts(words@) =~= all.take(1));
    }
    while i < block.attrs.members.len()
        invariant
            i <= block.attrs.members.len(),
            all == head_words(block@),
            text::texts(words@) == all.take(i + 1),
        decreases block.attrs.members.len() - i,
    {
        let name = escaping::escape_text(block.attrs.members[i].0.as_str(), true);
        let value = escaping::escape_text(block.attrs.members[i].1.as_text(), true);
        let mut word = name;
        word.push('=');
        word.append(value.as_str());
        proof {
            assert(block.attrs@[i as int] == (
                block.attrs.members@[i as int].0@,
                block.attrs.members@[i as int].1@,
            ));
            assert(word@ =~= head_word(block.attrs@[i as int]));
            assert(all[i + 1] == word@);
            lemma_texts_push(words@, word);
            assert(all.take(i + 2) =~= all.take(i + 1).push(word@));
        }
        words.push(word);
        i += 1;
    }
    proof {
        assert(all.take(i + 1) =~= all);
    }
    let joined = escaping::join_by(&words, ' ');
    let mut line = String::new();
    line.push('@');
    line.append(joined.as_str());
    proof {
        assert(line@ =~= seq!['@'] + escaping::joined_by(all, ' '));
    }
    line
}

/// Add the lines of a block.
fn write_block(lines: &mut Vec<String>, block: &Block)
    ensures
        text::texts(final(lines)@) == text::texts(old(lines)@) + block_lines(block@),
{
    let ghost before = text::texts(lines@);
    let head = write_block_head(block);
    let ghost head_text = head@;
    lines.push(head);
    lines.push(String::new());
    proof {
        assert(text::texts(lines@) =~= before + seq![head_text, Seq::<char>::empty()]);
    }
    let body = escaping::split_lines(block.text.as_str());
    let ghost all = escaping::lines_of(block.text@).map_values(|l: Seq<char>| shielded(l));
    let ghost so_far = before + seq![head_text, Seq::<char>::empty()];
    let mut i: usize = 0;
    proof {
        assert(so_far + all.take(0) =~= so_far);
    }
    while i < body.len()
        invariant
            i <= body.len(),
            text::texts(body@) == escaping::lines_of(block.text@),
            all == escaping::lines_of(block.text@).map_values(|l: Seq<char>| shielded(l)),
            text::texts(lines@) == so_far + all.take(i as int),
        decreases body.len() - i,
    {
        let line = body[i].as_str();
        let mut written = String::new();
        if !line.is_empty() {
            let c = line.get_char(0);
            if c == '@' || c == '\\' {
                written.push('\\');
            }
        }
        written.append(line);
        proof {
            assert(text::texts(body@)[i as int] == line@);
            assert(written@ =~= shielded(line@));
            assert(all[i as int] == written@);
            lemma_texts_push(lines@, written);
            assert(so_far + all.take(i + 1) =~= (so_far + all.take(i as int)).push(written@));
        }
        lines.push(written);
        i += 1;
    }
    proof {
        assert(all.take(i as int) =~= all);
        assert(so_far + all =~= before + block_lines(block@));
    }
}

/// Render a document as `.nomai` text. A well-formed document parses back,
/// with its attribute values as strings.
pub fn render(doc: &NomaiDoc) -> (s: String)
    requires
        doc.created_at.valid(),
        doc.updated_at.valid(),
    ensures
        s@ == rendered(doc@),
        format_laws::doc_well_formed(doc@) ==> parsed(s@) == Ok::<DocSpec, Fault>(
            format_laws::doc_as_strings(doc@),
        ),
{
    let mut lines = write_header(doc);
    proof {
        if format_laws::doc_well_formed(doc@) {
            format_laws::lemma_render_parse(doc@);
        }
    }
    let ghost head = text::texts(lines@);
    lines.push(String::new());
    let ghost start = head + seq![Seq::<char>::empty()];
    proof {
        assert(text::texts(lines@) =~= start);
        assert(start + body_lines(doc@.blocks, 0) =~= start);
    }
    let mut i: usize = 0;
    while i < doc.blocks.len()
        invariant
            i <= doc.blocks.len(),
            text::texts(lines@) == start + body_lines(doc@.blocks, i as nat),
        decreases doc.blocks.len() - i,
    {
        write_block(&mut lines, &doc.blocks[i]);
        proof {
            assert(doc@.blocks[i as int] == doc.blocks@[i as int]@);
            assert(start + body_lines(doc@.blocks, i as nat) + block_lines(doc@.blocks[i as int])
                =~= start + body_lines(doc@.blocks, (i + 1) as nat));
        }
        i += 1;
    }
    escaping::join_lines(&lines)
}

} // verus!
