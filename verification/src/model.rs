//! Entries: what a knowledge base consists of.
use vstd::prelude::*;
use vstd::string::*;

use crate::attrs::{AttrsSpec, AttrsValue};
use crate::block_model::{Block, BlockRow};
use crate::ids::Id;
use crate::ordering;
use crate::tables::{self, Copied, HasId};
use crate::text;
use crate::time::Timestamp;

verus! {

/// An entry with its blocks.
#[derive(Debug, Clone)]
pub struct Entry {
    pub id: Id,
    pub title: String,
    pub blocks: Vec<Block>,
    pub tags: Vec<String>,
    pub attrs: AttrsValue,
    pub source: Option<String>,
    pub created_at: Timestamp,
    pub updated_at: Timestamp,
}

/// An entry as mathematics.
#[verifier::ext_equal]
pub struct EntrySpec {
    pub id: Id,
    pub title: Seq<char>,
    pub blocks: Seq<BlockRow>,
    pub tags: Seq<Seq<char>>,
    pub attrs: AttrsSpec,
    pub source: Option<Seq<char>>,
    pub created_at: Timestamp,
    pub updated_at: Timestamp,
}

impl View for Entry {
    type V = EntrySpec;

    open spec fn view(&self) -> EntrySpec {
        EntrySpec {
            id: self.id,
            title: self.title@,
            blocks: ordering::views(self.blocks@),
            tags: text::texts(self.tags@),
            attrs: self.attrs@,
            source: tables::opt_text(self.source),
            created_at: self.created_at,
            updated_at: self.updated_at,
        }
    }
}

impl Copied for Entry {
    fn copy(&self) -> (r: Entry) {
        Entry {
            id: self.id,
            title: self.title.clone(),
            blocks: tables::copy_rows(&self.blocks),
            tags: tables::copy_texts(&self.tags),
            attrs: self.attrs.copy(),
            source: tables::copy_opt(&self.source),
            created_at: self.created_at,
            updated_at: self.updated_at,
        }
    }
}

/// An entry as the index holds it, without its blocks but with where and when
/// its file was last seen.
#[derive(Debug, Clone)]
pub struct EntryRow {
    pub id: Id,
    pub title: String,
    pub tags: Vec<String>,
    pub attrs: AttrsValue,
    pub source: Option<String>,
    pub fs_path: Option<String>,
    pub fs_mtime: Option<String>,
    pub created_at: Timestamp,
    pub updated_at: Timestamp,
}

/// An indexed entry as mathematics.
#[verifier::ext_equal]
pub struct EntryRowSpec {
    pub id: Id,
    pub title: Seq<char>,
    pub tags: Seq<Seq<char>>,
    pub attrs: AttrsSpec,
    pub source: Option<Seq<char>>,
    pub fs_path: Option<Seq<char>>,
    pub fs_mtime: Option<Seq<char>>,
    pub created_at: Timestamp,
    pub updated_at: Timestamp,
}

impl View for EntryRow {
    type V = EntryRowSpec;

    open spec fn view(&self) -> EntryRowSpec {
        EntryRowSpec {
            id: self.id,
            title: self.title@,
            tags: text::texts(self.tags@),
            attrs: self.attrs@,
            source: tables::opt_text(self.source),
            fs_path: tables::opt_text(self.fs_path),
            fs_mtime: tables::opt_text(self.fs_mtime),
            created_at: self.created_at,
            updated_at: self.updated_at,
        }
    }
}

impl HasId for EntryRow {
    open spec fn id_of(row: EntryRowSpec) -> Id {
        row.id
    }

    fn row_id(&self) -> (r: Id) {
        self.id
    }
}

impl EntryRowSpec {
    /// The entry with these blocks.
    pub open spec fn with_blocks(self, blocks: Seq<BlockRow>) -> EntrySpec {
        EntrySpec {
            id: self.id,
            title: self.title,
            blocks,
            tags: self.tags,
            attrs: self.attrs,
            source: self.source,
            created_at: self.created_at,
            updated_at: self.updated_at,
        }
    }
}

impl EntryRow {
    /// The entry with these blocks.
    pub fn to_entry(&self, blocks: Vec<Block>) -> (r: Entry)
        ensures
            r@ == self@.with_blocks(ordering::views(blocks@)),
    {
        Entry {
            id: self.id,
            title: self.title.clone(),
            blocks,
            tags: tables::copy_texts(&self.tags),
            attrs: self.attrs.copy(),
            source: tables::copy_opt(&self.source),
            created_at: self.created_at,
            updated_at: self.updated_at,
        }
    }
}

} // verus!
