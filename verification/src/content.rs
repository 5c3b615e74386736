//! The index of all content: entries, their blocks, the blocks' chunks, and
//! links between entries.
use vstd::prelude::*;
use vstd::string::*;

use crate::block_model::{Block, BlockRow};
use crate::chunk_model::{Chunk, ChunkRow};
use crate::ids::Id;
use crate::link_model::{Link, LinkRow};
use crate::model::{EntryRow, EntryRowSpec};
use crate::ordering;
use crate::signals;
use crate::tables::{self, Copied};

verus! {

/// The index.
#[derive(Debug, Clone)]
pub struct ContentDb {
    pub entries: Vec<EntryRow>,
    pub blocks: Vec<Block>,
    pub chunks: Vec<Chunk>,
    pub links: Vec<Link>,
}

/// The index as mathematics.
#[verifier::ext_equal]
pub struct ContentSpec {
    pub entries: Seq<EntryRowSpec>,
    pub blocks: Seq<BlockRow>,
    pub chunks: Seq<ChunkRow>,
    pub links: Seq<LinkRow>,
}

impl View for ContentDb {
    type V = ContentSpec;

    open spec fn view(&self) -> ContentSpec {
        ContentSpec {
            entries: ordering::views(self.entries@),
            blocks: ordering::views(self.blocks@),
            chunks: ordering::views(self.chunks@),
            links: ordering::views(self.links@),
        }
    }
}

impl ContentSpec {
    /// An entry has the identifier.
    pub open spec fn has_entry(self, id: Id) -> bool {
        tables::row_of::<EntryRow>(self.entries, id) is Some
    }

    /// A block has the identifier.
    pub open spec fn has_block(self, id: Id) -> bool {
        tables::row_of::<Block>(self.blocks, id) is Some
    }

    /// Identifiers are unique; blocks, chunks and links belong to what exists;
    /// no two blocks of an entry have one ordinal; and no two links of one
    /// relation join the same entries.
    pub open spec fn well_formed(self) -> bool {
        &&& tables::distinct::<EntryRow>(self.entries)
        &&& tables::distinct::<Block>(self.blocks)
        &&& tables::distinct::<Chunk>(self.chunks)
        &&& tables::distinct::<Link>(self.links)
        &&& forall|i: int|
            0 <= i < self.blocks.len() ==> self.has_entry((#[trigger] self.blocks[i]).entry_id)
        &&& forall|i: int|
            0 <= i < self.chunks.len() ==> self.has_block((#[trigger] self.chunks[i]).block_id)
        &&& forall|i: int|
            0 <= i < self.links.len() ==> self.has_entry((#[trigger] self.links[i]).source_id)
                && self.has_entry(self.links[i].target_id)
        &&& forall|i: int, j: int|
            0 <= i < j < self.blocks.len() ==> (#[trigger] self.blocks[i]).entry_id != (
            #[trigger] self.blocks[j]).entry_id || self.blocks[i].ordinal != self.blocks[j].ordinal
        &&& forall|i: int, j: int|
            0 <= i < j < self.links.len() ==> !same_edge(
                #[trigger] self.links[i],
                #[trigger] self.links[j],
            )
    }
}

/// Two links of one relation that join the same entries.
pub open spec fn same_edge(a: LinkRow, b: LinkRow) -> bool {
    a.source_id == b.source_id && a.target_id == b.target_id && a.relation == b.relation
}

/// A row that belongs to another.
pub trait Owned: View + Sized {
    /// The identifier of the row that it belongs to.
    spec fn owner_of(row: Self::V) -> Id;

    fn owner(&self) -> (r: Id)
        ensures
            r == Self::owner_of(self@),
    ;
}

impl Owned for Block {
    open spec fn owner_of(row: BlockRow) -> Id {
        row.entry_id
    }

    fn owner(&self) -> (r: Id) {
        self.entry_id
    }
}

impl Owned for Chunk {
    open spec fn owner_of(row: ChunkRow) -> Id {
        row.block_id
    }

    fn owner(&self) -> (r: Id) {
        self.block_id
    }
}

/// Whether a row belongs to `owner`.
pub open spec fn belongs<T: Owned>(owner: Id) -> spec_fn(T::V) -> bool {
    |row: T::V| T::owner_of(row) == owner
}

/// The rows that belong to `owner`.
pub open spec fn owned<T: Owned>(rows: Seq<T::V>, owner: Id) -> Seq<T::V> {
    rows.filter(belongs::<T>(owner))
}

/// The rows that belong to none of `owners`.
pub open spec fn unowned<T: Owned>(rows: Seq<T::V>, owners: Seq<Id>) -> Seq<T::V> {
    rows.filter(|row: T::V| !owners.contains(T::owner_of(row)))
}

/// Copy the rows that belong to `owner`.
pub fn copy_owned<T: Owned + Copied>(rows: &Vec<T>, owner: Id) -> (r: Vec<T>)
    ensures
        ordering::views(r@) == owned::<T>(ordering::views(rows@), owner),
{
    let ghost keep = belongs::<T>(owner);
    let ghost held = ordering::views(rows@);
    let mut out: Vec<T> = Vec::new();
    let mut i: usize = 0;
    proof {
        assert(held.take(0).filter(keep) =~= Seq::empty()) by {
            reveal(Seq::filter);
        }
        assert(ordering::views(out@) =~= Seq::empty());
    }
    while i < rows.len()
        invariant
            i <= rows.len(),
            held == ordering::views(rows@),
            keep == belongs::<T>(owner),
            ordering::views(out@) == held.take(i as int).filter(keep),
        decreases rows.len() - i,
    {
        proof {
            assert(held[i as int] == rows@[i as int]@);
            signals::lemma_filter_take(held, i as int, keep);
        }
        if rows[i].owner() == owner {
            let ghost before = out@;
            let row = rows[i].copy();
            let ghost copied = row@;
            out.push(row);
            proof {
                assert(ordering::views(out@) =~= ordering::views(before).push(copied));
            }
        }
        i += 1;
    }
    proof {
        assert(held.take(i as int) =~= held);
    }
    out
}

/// Drop the rows that belong to any of `owners`.
pub fn drop_owned<T: Owned>(rows: Vec<T>, owners: &Vec<Id>) -> (r: Vec<T>)
    ensures
        ordering::views(r@) == unowned::<T>(ordering::views(rows@), owners@),
{
    let ghost keep = |row: T::V| !owners@.contains(T::owner_of(row));
    let ghost all = rows@;
    let ghost held = ordering::views(all);
    let mut out: Vec<T> = Vec::new();
    proof {
        assert(held.take(0).filter(keep) =~= Seq::empty()) by {
            reveal(Seq::filter);
        }
        assert(ordering::views(out@) =~= Seq::empty());
    }
    for row in it: rows
        invariant
            it.seq() == all,
            held == ordering::views(all),
            keep == (|row: T::V| !owners@.contains(T::owner_of(row))),
            ordering::views(out@) == held.take(it.index() as int).filter(keep),
    {
        proof {
            let i = it.index() as int;
            assert(held[i] == row@);
            signals::lemma_filter_take(held, i, keep);
        }
        if !signals::contains_id(owners, row.owner()) {
            let ghost before = out@;
            let ghost kept = row@;
            out.push(row);
            proof {
                assert(ordering::views(out@) =~= ordering::views(before).push(kept));
            }
        }
    }
    proof {
        assert(held.take(held.len() as int) =~= held);
    }
    out
}

} // verus!
