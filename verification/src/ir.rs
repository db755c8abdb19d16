//! The intermediate representation: a flat sequence of tagged nodes, each one
//! either a compressed arithmetic/move block, a lone pointer move, an I/O
//! marker, or a loop marker carrying a matched id.

use vstd::prelude::*;

verus! {

/// Mathematical form of an IR node: unbounded integers, and a `Seq` for the
/// per-offset deltas. Contracts and laws are stated over this type.
pub enum BlockModel {
    /// Net effect of a straight-line run: `delta[j]` is the change applied at
    /// relative offset `delta_start + j`, and `delta_ptr` the net pointer move.
    Delta { delta: Seq<int>, delta_start: int, delta_ptr: int },
    /// Read one value into the current cell.
    Input,
    /// Write the current cell.
    Output,
    /// Open the loop with this id.
    LoopOpen(int),
    /// Close the loop with this id.
    LoopClose(int),
    /// Move the pointer one cell left, nothing else.
    Left,
    /// Move the pointer one cell right, nothing else.
    Right,
}

/// One IR node as the backend receives it.
#[derive(Clone, Debug, PartialEq, Eq)]
pub enum Block {
    /// A compressed arithmetic/move run; see `BlockModel::Delta`.
    Block { delta: Vec<i128>, delta_start: i128, delta_ptr: i128 },
    /// Read one value into the current cell.
    Input,
    /// Write the current cell.
    Output,
    /// Open the loop with this id.
    LoopOpen(usize),
    /// Close the loop with this id.
    LoopClose(usize),
    /// Move the pointer one cell left, nothing else.
    Left,
    /// Move the pointer one cell right, nothing else.
    Right,
}

impl View for Block {
    type V = BlockModel;

    open spec fn view(&self) -> BlockModel {
        match self {
            Block::Block { delta, delta_start, delta_ptr } => BlockModel::Delta {
                delta: delta@.map_values(|v: i128| v as int),
                delta_start: *delta_start as int,
                delta_ptr: *delta_ptr as int,
            },
            Block::Input => BlockModel::Input,
            Block::Output => BlockModel::Output,
            Block::LoopOpen(id) => BlockModel::LoopOpen(*id as int),
            Block::LoopClose(id) => BlockModel::LoopClose(*id as int),
            Block::Left => BlockModel::Left,
            Block::Right => BlockModel::Right,
        }
    }
}

/// The views of a node sequence, in order.
pub open spec fn views_of(blocks: Seq<Block>) -> Seq<BlockModel> {
    blocks.map_values(|b: Block| b@)
}

} // verus!
