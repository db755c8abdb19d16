//! The delta-block compressor: one straight-line run of arithmetic and
//! pointer-move instructions becomes a single node recording the net change at
//! every offset it touched, the leftmost offset reached, and the net pointer
//! displacement.

use vstd::prelude::*;
use crate::token::Token;
use crate::ir::{Block, BlockModel};

verus! {

/// Whether a token is pure arithmetic or pointer movement.
pub open spec fn is_arith_move(t: Token) -> bool {
    t == Token::Inc || t == Token::Dec || t == Token::Lft || t == Token::Rgh
}

/// Whether a run consists only of arithmetic and pointer-move tokens.
pub open spec fn arith_move_only(run: Seq<Token>) -> bool {
    forall|i: int| 0 <= i < run.len() ==> is_arith_move(#[trigger] run[i])
}

/// Pointer position after naively executing the run, relative to entry.
pub open spec fn net_ptr(run: Seq<Token>) -> int
    decreases run.len(),
{
    if run.len() == 0 {
        0
    } else {
        net_ptr(run.drop_last()) + (match run.last() {
            Token::Lft => -1,
            Token::Rgh => 1int,
            _ => 0,
        })
    }
}

/// Leftmost pointer position reached over the whole run (0, the entry
/// position, included).
pub open spec fn min_ptr(run: Seq<Token>) -> int
    decreases run.len(),
{
    if run.len() == 0 {
        0
    } else if net_ptr(run) < min_ptr(run.drop_last()) {
        net_ptr(run)
    } else {
        min_ptr(run.drop_last())
    }
}

/// Rightmost pointer position reached over the whole run (0 included).
pub open spec fn max_ptr(run: Seq<Token>) -> int
    decreases run.len(),
{
    if run.len() == 0 {
        0
    } else if net_ptr(run) > max_ptr(run.drop_last()) {
        net_ptr(run)
    } else {
        max_ptr(run.drop_last())
    }
}

/// Net change that naively executing the run applies to the cell at relative
/// offset `off` of an idealized infinite tape.
pub open spec fn cell_delta(run: Seq<Token>, off: int) -> int
    decreases run.len(),
{
    if run.len() == 0 {
        0
    } else {
        cell_delta(run.drop_last(), off) + (match run.last() {
            Token::Inc => if net_ptr(run.drop_last()) == off { 1int } else { 0 },
            Token::Dec => if net_ptr(run.drop_last()) == off { -1int } else { 0 },
            _ => 0,
        })
    }
}

/// The pointer stays within `run.len()` cells of entry, and the extreme
/// positions bracket every intermediate one.
pub proof fn lemma_ptr_bounds(run: Seq<Token>)
    ensures
        -run.len() <= net_ptr(run) <= run.len(),
        -run.len() <= min_ptr(run) <= 0,
        0 <= max_ptr(run) <= run.len(),
        min_ptr(run) <= net_ptr(run) <= max_ptr(run),
    decreases run.len(),
{
    if run.len() > 0 {
        lemma_ptr_bounds(run.drop_last());
    }
}

/// No cell changes by more than the number of tokens in the run.
pub proof fn lemma_cell_delta_bound(run: Seq<Token>, off: int)
    ensures
        -run.len() <= cell_delta(run, off) <= run.len(),
    decreases run.len(),
{
    if run.len() > 0 {
        lemma_cell_delta_bound(run.drop_last(), off);
    }
}

/// A cell the pointer never reaches is never changed.
pub proof fn lemma_cell_delta_outside(run: Seq<Token>, off: int)
    requires
        off < min_ptr(run) || off > max_ptr(run),
    ensures
        cell_delta(run, off) == 0,
    decreases run.len(),
{
    if run.len() > 0 {
        lemma_ptr_bounds(run.drop_last());
        lemma_cell_delta_outside(run.drop_last(), off);
    }
}

/// The node that stands for a straight-line run: a lone move becomes a pure
/// move node; anything else becomes a delta block whose fields are read off
/// the naive simulation of the run.
pub open spec fn compress_model(run: Seq<Token>) -> BlockModel {
    if run.len() == 1 && run[0] == Token::Lft {
        BlockModel::Left
    } else if run.len() == 1 && run[0] == Token::Rgh {
        BlockModel::Right
    } else {
        BlockModel::Delta {
            delta: Seq::new(
                (max_ptr(run) - min_ptr(run) + 1) as nat,
                |j: int| cell_delta(run, min_ptr(run) + j),
            ),
            delta_start: min_ptr(run),
            delta_ptr: net_ptr(run),
        }
    }
}

/// Compress one non-empty arithmetic/move run into a single IR node whose
/// fields record exactly the net effect of naively executing the run.
pub fn run_block(block: &Vec<Token>) -> (r: Block)
    requires
        block@.len() > 0,
        arith_move_only(block@),
    ensures
        r@ == compress_model(block@),
{
    let ghost run = block@;
    if block.len() == 1 {
        let t = block[0];
        if t == Token::Lft {
            return Block::Left;
        }
        if t == Token::Rgh {
            return Block::Right;
        }
    }

    let n = block.len();
    let mut delta: Vec<i128> = Vec::new();
    delta.push(0);
    let mut curr_ptr: usize = 0;
    let mut delta_ptr: i128 = 0;
    let mut delta_start: i128 = 0;

    for i in 0..n
        invariant
            n == run.len(),
            run == block@,
            arith_move_only(run),
            delta_ptr == net_ptr(run.take(i as int)),
            delta_start == min_ptr(run.take(i as int)),
            delta@.len() == max_ptr(run.take(i as int)) - min_ptr(run.take(i as int)) + 1,
            curr_ptr == net_ptr(run.take(i as int)) - min_ptr(run.take(i as int)),
            curr_ptr < delta@.len(),
            forall|j: int| 0 <= j < delta@.len()
                ==> #[trigger] delta@[j]
                    == cell_delta(run.take(i as int), min_ptr(run.take(i as int)) + j),
    {
        let ghost p = run.take(i as int);
        let ghost p2 = run.take(i + 1);
        proof {
            assert(p2.drop_last() =~= p);
            assert(p2.last() == run[i as int]);
            lemma_ptr_bounds(p);
        }
        let t = block[i];
        if t == Token::Inc {
            proof {
                lemma_cell_delta_bound(p, min_ptr(p) + curr_ptr as int);
            }
            let v = delta[curr_ptr];
            delta.set(curr_ptr, v + 1);
            proof {
                assert(net_ptr(p2) == net_ptr(p));
                assert(min_ptr(p2) == min_ptr(p));
                assert(max_ptr(p2) == max_ptr(p));
                assert forall|j: int| 0 <= j < delta@.len()
                    implies #[trigger] delta@[j] == cell_delta(p2, min_ptr(p2) + j) by {
                    if j == curr_ptr {
                        assert(net_ptr(p) == min_ptr(p) + j);
                    } else {
                        assert(net_ptr(p) != min_ptr(p) + j);
                    }
                }
            }
        } else if t == Token::Dec {
            proof {
                lemma_cell_delta_bound(p, min_ptr(p) + curr_ptr as int);
            }
            let v = delta[curr_ptr];
            delta.set(curr_ptr, v - 1);
            proof {
                assert(net_ptr(p2) == net_ptr(p));
                assert(min_ptr(p2) == min_ptr(p));
                assert(max_ptr(p2) == max_ptr(p));
                assert forall|j: int| 0 <= j < delta@.len()
                    implies #[trigger] delta@[j] == cell_delta(p2, min_ptr(p2) + j) by {
                    if j == curr_ptr {
                        assert(net_ptr(p) == min_ptr(p) + j);
                    } else {
                        assert(net_ptr(p) != min_ptr(p) + j);
                    }
                }
            }
        } else if t == Token::Lft {
            delta_ptr = delta_ptr - 1;
            if curr_ptr == 0 {
                delta.insert(0, 0);
                proof {
                    assert(net_ptr(p2) == net_ptr(p) - 1);
                    assert(net_ptr(p) == min_ptr(p));
                    assert(min_ptr(p2) == min_ptr(p) - 1);
                    assert(max_ptr(p2) == max_ptr(p));
                    lemma_cell_delta_outside(p, min_ptr(p) - 1);
                    assert forall|j: int| 0 <= j < delta@.len()
                        implies #[trigger] delta@[j] == cell_delta(p2, min_ptr(p2) + j) by {
                        if j == 0 {
                            assert(cell_delta(p2, min_ptr(p) - 1) == cell_delta(p, min_ptr(p) - 1));
                        } else {
                            assert(delta@[j] == cell_delta(p, min_ptr(p) + (j - 1)));
                            assert(cell_delta(p2, min_ptr(p2) + j) == cell_delta(p, min_ptr(p) + (j - 1)));
                        }
                    }
                }
            } else {
                curr_ptr = curr_ptr - 1;
                proof {
                    assert(net_ptr(p2) == net_ptr(p) - 1);
                    assert(net_ptr(p) > min_ptr(p));
                    assert(min_ptr(p2) == min_ptr(p));
                    assert(max_ptr(p2) == max_ptr(p));
                    assert forall|j: int| 0 <= j < delta@.len()
                        implies #[trigger] delta@[j] == cell_delta(p2, min_ptr(p2) + j) by {
                        assert(cell_delta(p2, min_ptr(p) + j) == cell_delta(p, min_ptr(p) + j));
                    }
                }
            }
            if delta_ptr < delta_start {
                delta_start = delta_ptr;
            }
        } else {
            proof {
                assert(t == Token::Rgh);
            }
            delta_ptr = delta_ptr + 1;
            let width = delta.len();
            curr_ptr = curr_ptr + 1;
            proof {
                assert(net_ptr(p2) == net_ptr(p) + 1);
                assert(min_ptr(p2) == min_ptr(p));
                assert forall|j: int| 0 <= j < delta@.len()
                    implies #[trigger] delta@[j] == cell_delta(p2, min_ptr(p2) + j) by {
                    assert(cell_delta(p2, min_ptr(p) + j) == cell_delta(p, min_ptr(p) + j));
                }
            }
            if curr_ptr >= width {
                delta.push(0);
                proof {
                    assert(net_ptr(p) == max_ptr(p));
                    assert(max_ptr(p2) == max_ptr(p) + 1);
                    lemma_cell_delta_outside(p, max_ptr(p) + 1);
                    assert(delta@.last() == cell_delta(p2, min_ptr(p2) + (delta@.len() - 1)));
                }
            } else {
                proof {
                    assert(net_ptr(p) < max_ptr(p));
                    assert(max_ptr(p2) == max_ptr(p));
                }
            }
        }
    }

    proof {
        assert(run.take(n as int) =~= run);
        let m = compress_model(run);
        assert(m matches BlockModel::Delta { delta: d, delta_start: ds, delta_ptr: dp }
            ==> d =~= delta@.map_values(|v: i128| v as int)
                && ds == delta_start as int
                && dp == delta_ptr as int) by {
            assert(delta@.map_values(|v: i128| v as int).len() == delta@.len());
        }
    }
    Block::Block { delta, delta_start, delta_ptr }
}

/// Law: when a run is compressed to a delta block, the block records exactly
/// what naive simulation of the run on an infinite two-sided tape produces:
/// one entry per offset between the leftmost and rightmost positions reached,
/// each entry the net change of that cell, `delta_start` the leftmost position
/// reached, and `delta_ptr` the final pointer position.
pub proof fn lemma_compressor_net_effect(run: Seq<Token>)
    requires
        run.len() > 0,
        arith_move_only(run),
    ensures
        compress_model(run) matches BlockModel::Delta { delta, delta_start, delta_ptr } ==> {
            &&& delta_start == min_ptr(run)
            &&& delta_ptr == net_ptr(run)
            &&& delta.len() == max_ptr(run) - min_ptr(run) + 1
            &&& forall|j: int| 0 <= j < delta.len()
                ==> #[trigger] delta[j] == cell_delta(run, delta_start + j)
        },
{
    lemma_ptr_bounds(run);
}

/// The write that re-expanding a straight-line node applies at offset `off`:
/// one write per delta entry, nothing anywhere else.
pub open spec fn node_write(node: BlockModel, off: int) -> int {
    match node {
        BlockModel::Delta { delta, delta_start, .. } => if delta_start <= off
            < delta_start + delta.len() {
            delta[off - delta_start]
        } else {
            0
        },
        _ => 0,
    }
}

/// The single pointer move that re-expanding a straight-line node ends with.
pub open spec fn node_move(node: BlockModel) -> int {
    match node {
        BlockModel::Delta { delta_ptr, .. } => delta_ptr,
        BlockModel::Left => -1,
        BlockModel::Right => 1int,
        _ => 0,
    }
}

/// Law: re-expanding a compressed node — its per-offset writes followed by
/// one pointer move — is observationally equivalent to executing the original
/// run token by token on an idealized infinite tape: both change each cell by
/// the same amount and leave the pointer at the same place.
pub proof fn lemma_compress_round_trip(run: Seq<Token>)
    requires
        run.len() > 0,
        arith_move_only(run),
    ensures
        forall|off: int| #[trigger] node_write(compress_model(run), off) == cell_delta(run, off),
        node_move(compress_model(run)) == net_ptr(run),
{
    lemma_ptr_bounds(run);
    if run.len() == 1 && (run[0] == Token::Lft || run[0] == Token::Rgh) {
        assert(run.drop_last() =~= Seq::<Token>::empty());
        assert(run.last() == run[0]);
        assert(net_ptr(run) == net_ptr(run.drop_last()) + (if run[0] == Token::Lft { -1int } else { 1 }));
        assert forall|off: int| #[trigger] node_write(compress_model(run), off)
            == cell_delta(run, off) by {
            assert(cell_delta(run, off) == cell_delta(run.drop_last(), off));
        }
    } else {
        assert forall|off: int| #[trigger] node_write(compress_model(run), off)
            == cell_delta(run, off) by {
            if off < min_ptr(run) || off > max_ptr(run) {
                lemma_cell_delta_outside(run, off);
            }
        }
    }
}

} // verus!
