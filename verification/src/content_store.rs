//! Names of files below the knowledge root.
use vstd::prelude::*;
use vstd::string::*;

use crate::error::{CoreError, CoreFault};
use crate::ids::{self, Id};
use crate::ordering::{self, Order, Ranked};
use crate::sessions;
use crate::text;
use crate::time::Timestamp;

verus! {

/// The character cannot stand in the name of an attachment.
pub open spec fn is_forbidden(c: char) -> bool {
    c == '/' || c == '\\' || c == '\0' || c == ':' || c == '<' || c == '>' || c == '*' || c == '?'
        || c == '|' || c == '"'
}

/// The name is one that an attachment can have: a single segment of a path that
/// leads nowhere else.
pub open spec fn is_safe(s: Seq<char>) -> bool {
    &&& s.len() > 0
    &&& s[0] != '~'
    &&& s != "."@
    &&& s != ".."@
    &&& forall|i: int| 0 <= i < s.len() ==> !is_forbidden(#[trigger] s[i])
}

/// What is said of a name that an attachment cannot have.
pub open spec fn unsafe_fault(s: Seq<char>) -> CoreFault {
    CoreFault::Validation("unsafe attachment filename: "@ + s)
}

/// Check the name of an attachment, and give it back.
pub fn sanitize_attachment_filename(filename: &str) -> (r: Result<String, CoreError>)
    ensures
        match r {
            Ok(s) => is_safe(filename@) && s@ == filename@,
            Err(e) => !is_safe(filename@) && e@ == unsafe_fault(filename@),
        },
{
    let chars = text::chars_of(filename);
    let mut bad = chars.len() == 0 || text::same(filename, ".") || text::same(filename, "..");
    if chars.len() > 0 && chars[0] == '~' {
        bad = true;
    }
    let mut i: usize = 0;
    while i < chars.len()
        invariant
            i <= chars.len(),
            chars@ == filename@,
            bad == !(filename@.len() > 0 && filename@[0] != '~' && filename@ != "."@ && filename@
                != ".."@ && forall|k: int| 0 <= k < i ==> !is_forbidden(#[trigger] filename@[k])),
        decreases chars.len() - i,
    {
        let c = chars[i];
        proof {
            assert(filename@[i as int] == c);
        }
        if c == '/' || c == '\\' || c == '\0' || c == ':' || c == '<' || c == '>' || c == '*' || c
            == '?' || c == '|' || c == '"' {
            bad = true;
        }
        i += 1;
    }
    if bad {
        return Err(CoreError::Validation(text::text2("unsafe attachment filename: ", filename)));
    }
    Ok(filename.to_owned())
}

/// What is said of an attachment that is not there.
pub fn attachment_not_found(filename: &str) -> (e: CoreError)
    ensures
        e@ == CoreFault::Validation("attachment not found: "@ + filename@),
{
    CoreError::Validation(text::text2("attachment not found: ", filename))
}

/// The directory of an entry below the knowledge root.
pub fn entry_dir(id: Id) -> (s: String)
    ensures
        s@ == "entries/"@ + ids::text_of_id(id),
{
    let t = ids::id_text(id);
    text::text2("entries/", t.as_str())
}

/// The name under which a file is written before it takes its place.
pub fn temporary_name(filename: &str) -> (s: String)
    ensures
        s@ == filename@ + ".tmp"@,
{
    text::text2(filename, ".tmp")
}

/// Something that stands in a directory. A name that is not Unicode is none.
#[derive(Debug, Clone)]
pub struct DirItem {
    pub name: Option<String>,
    pub is_dir: bool,
    pub is_file: bool,
    pub size: u64,
    pub modified: Timestamp,
}

/// The entries that the first `n` items of the entries directory are of: the
/// directories whose names are identifiers.
pub open spec fn entry_ids(items: Seq<DirItem>, n: nat) -> Seq<Id>
    decreases n,
{
    if n == 0 {
        Seq::empty()
    } else {
        let before = entry_ids(items, (n - 1) as nat);
        let item = items[n - 1];
        if item.is_dir && item.name is Some && ids::id_of_text(item.name->0@) is Some {
            before.push(ids::id_of_text(item.name->0@)->0)
        } else {
            before
        }
    }
}

/// Find the entries in the entries directory.
pub fn scan_entry_ids(items: &Vec<DirItem>) -> (r: Vec<Id>)
    ensures
        r@ == entry_ids(items@, items@.len()),
{
    let mut out: Vec<Id> = Vec::new();
    let mut i: usize = 0;
    while i < items.len()
        invariant
            i <= items.len(),
            out@ == entry_ids(items@, i as nat),
        decreases items.len() - i,
    {
        if items[i].is_dir {
            if let Some(name) = &items[i].name {
                if let Some(id) = ids::parse_id(name.as_str()) {
                    out.push(id);
                }
            }
        }
        i += 1;
    }
    out
}

/// An attachment of an entry.
#[derive(Debug, Clone)]
pub struct AttachmentMeta {
    pub filename: String,
    pub size: u64,
    pub modified: Timestamp,
}

/// An attachment as mathematics.
#[verifier::ext_equal]
pub struct AttachmentSpec {
    pub filename: Seq<char>,
    pub size: u64,
    pub modified: Timestamp,
}

impl View for AttachmentMeta {
    type V = AttachmentSpec;

    open spec fn view(&self) -> AttachmentSpec {
        AttachmentSpec { filename: self.filename@, size: self.size, modified: self.modified }
    }
}

/// Attachments go by their names.
pub open spec fn by_name() -> Order<AttachmentSpec> {
    |a: AttachmentSpec, b: AttachmentSpec| text::precedes(a.filename, b.filename)
}

impl Ranked<()> for AttachmentMeta {
    open spec fn order(mode: ()) -> Order<AttachmentSpec> {
        by_name()
    }

    fn is_before(&self, other: &AttachmentMeta, mode: &()) -> (r: bool) {
        text::is_before(self.filename.as_str(), other.filename.as_str())
    }
}

/// The attachments among the first `n` items of an entry's directory: the files
/// but the entry's own.
pub open spec fn attachments(items: Seq<DirItem>, n: nat) -> Seq<AttachmentSpec>
    decreases n,
{
    if n == 0 {
        Seq::empty()
    } else {
        let before = attachments(items, (n - 1) as nat);
        let item = items[n - 1];
        if item.is_file && item.name is Some && item.name->0@ != "entry.nomai"@ {
            before.push(
                AttachmentSpec {
                    filename: item.name->0@,
                    size: item.size,
                    modified: item.modified,
                },
            )
        } else {
            before
        }
    }
}

/// List the attachments of an entry, by name.
pub fn list_attachments(items: &Vec<DirItem>) -> (r: Vec<AttachmentMeta>)
    ensures
        ordering::views(r@) == ordering::in_order(attachments(items@, items@.len()), by_name()),
{
    let mut out: Vec<AttachmentMeta> = Vec::new();
    let mut i: usize = 0;
    proof {
        assert(ordering::views(out@) =~= Seq::empty());
    }
    while i < items.len()
        invariant
            i <= items.len(),
            ordering::views(out@) == attachments(items@, i as nat),
        decreases items.len() - i,
    {
        let item = &items[i];
        if item.is_file {
            if let Some(name) = &item.name {
                if !text::same(name.as_str(), "entry.nomai") {
                    let ghost before = out@;
                    let meta = AttachmentMeta {
                        filename: name.clone(),
                        size: item.size,
                        modified: item.modified,
                    };
                    let ghost view = meta@;
                    out.push(meta);
                    proof {
                        assert(ordering::views(out@) =~= ordering::views(before).push(view));
                    }
                }
            }
        }
        i += 1;
    }
    ordering::put_in_order(out, &())
}

/// Attachments are listed in the order of their names, and none is lost.
pub proof fn law_attachments_are_listed_by_name(items: Seq<DirItem>)
    ensures
        ({
            let all = attachments(items, items.len());
            let out = ordering::in_order(all, by_name());
            ordering::is_ordered(out, by_name()) && out.to_multiset() == all.to_multiset()
        }),
{
    let before = by_name();
    assert forall|a: AttachmentSpec, b: AttachmentSpec| !(#[trigger] before(a, b) && before(
        b,
        a,
    )) by {
        text::law_text_order_is_total(a.filename, b.filename);
    }
    assert forall|a: AttachmentSpec, b: AttachmentSpec, c: AttachmentSpec|
        !(#[trigger] before(b, a)) && !(#[trigger] before(c, b)) implies !before(c, a) by {
        text::law_text_order_is_total(a.filename, b.filename);
        text::law_text_order_is_total(b.filename, c.filename);
        text::law_text_order_is_total(a.filename, c.filename);
        if a.filename != b.filename && b.filename != c.filename {
            sessions::lemma_precedes_transitive(a.filename, b.filename, c.filename);
        }
    }
    ordering::law_in_order(attachments(items, items.len()), before);
}

} // verus!
