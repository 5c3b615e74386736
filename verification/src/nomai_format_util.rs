//! From stored entries to the documents that their files hold.
use vstd::prelude::*;
use vstd::string::*;

use crate::block_model::{self, BlockRow};
use crate::model::{Entry, EntrySpec};
use crate::nomai_format::{self, BlockType, DocSpec, NomaiDoc};
use crate::tables;

verus! {

/// A stored block as it stands in a file. A type that is not known becomes a
/// note, and attributes that are not an object become none.
pub open spec fn file_block(b: BlockRow) -> nomai_format::BlockSpec {
    nomai_format::BlockSpec {
        type_: match BlockType::named(b.type_) {
            Some(t) => t,
            None => BlockType::Note,
        },
        text: b.text,
        attrs: b.attrs.members(),
    }
}

/// A stored block as it stands in a file.
pub fn storage_block_to_parser_block(b: &block_model::Block) -> (r: nomai_format::Block)
    ensures
        r@ == file_block(b@),
{
    nomai_format::Block {
        type_: match BlockType::from_str(b.type_.as_str()) {
            Some(t) => t,
            None => BlockType::Note,
        },
        text: b.text.clone(),
        attrs: b.attrs.object_or_empty(),
    }
}

/// The document of a stored entry.
pub open spec fn stored_doc(e: EntrySpec) -> DocSpec {
    DocSpec {
        format_version: 1,
        id: e.id,
        title: e.title,
        tags: e.tags,
        attrs: e.attrs.members(),
        source: e.source,
        created_at: e.created_at,
        updated_at: e.updated_at,
        blocks: e.blocks.map_values(|b: BlockRow| file_block(b)),
    }
}

/// The document of a stored entry.
pub fn document_of_entry(e: &Entry) -> (doc: NomaiDoc)
    ensures
        doc@ == stored_doc(e@),
{
    let ghost rows = e@.blocks.map_values(|b: BlockRow| file_block(b));
    let mut out: Vec<nomai_format::Block> = Vec::new();
    let mut i: usize = 0;
    proof {
        assert(out@.map_values(|b: nomai_format::Block| b@) =~= rows.take(0));
    }
    while i < e.blocks.len()
        invariant
            i <= e.blocks.len(),
            rows == e@.blocks.map_values(|b: BlockRow| file_block(b)),
            out@.map_values(|b: nomai_format::Block| b@) == rows.take(i as int),
        decreases e.blocks.len() - i,
    {
        proof {
            assert(e@.blocks[i as int] == e.blocks@[i as int]@);
        }
        let ghost before = out@;
        let made = storage_block_to_parser_block(&e.blocks[i]);
        let ghost row = made@;
        out.push(made);
        proof {
            assert(row == rows[i as int]);
            assert(out@.map_values(|b: nomai_format::Block| b@) =~= before.map_values(
                |b: nomai_format::Block| b@,
            ).push(row));
            assert(rows.take(i + 1) =~= rows.take(i as int).push(rows[i as int]));
        }
        i += 1;
    }
    proof {
        assert(rows.take(i as int) =~= rows);
    }
    NomaiDoc {
        format_version: 1,
        id: e.id,
        title: e.title.clone(),
        tags: tables::copy_texts(&e.tags),
        attrs: e.attrs.object_or_empty(),
        source: tables::copy_opt(&e.source),
        created_at: e.created_at,
        updated_at: e.updated_at,
        blocks: out,
    }
}

} // verus!
