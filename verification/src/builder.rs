//! The block sequence builder: walks the token stream, hands each maximal
//! arithmetic/move run to the compressor, and emits a flat ordered node
//! sequence with matched loop ids — or the one structural error, unbalanced
//! loop markers.

use vstd::prelude::*;
use vstd::multiset::Multiset;
use crate::token::Token;
use crate::ir::{Block, BlockModel, views_of};
use crate::compress::{arith_move_only, is_arith_move, compress_model, run_block};

verus! {

broadcast use vstd::multiset::group_multiset_axioms;

/// The one structural failure: loop markers that do not pair up.
#[derive(Clone, Copy, Debug, PartialEq, Eq, Structural)]
pub enum BuildError {
    /// A close marker with no loop open, at this position in the token stream.
    UnmatchedClose { pos: usize },
    /// A loop still open when the stream ends, with this loop id.
    UnmatchedOpen { id: usize },
}

/// Mathematical form of the structural error.
pub enum BuildErrorModel {
    /// A close marker with no loop open, at this position in the token stream.
    UnmatchedClose { pos: int },
    /// A loop still open when the stream ends, with this loop id.
    UnmatchedOpen { id: int },
}

impl View for BuildError {
    type V = BuildErrorModel;

    open spec fn view(&self) -> BuildErrorModel {
        match self {
            BuildError::UnmatchedClose { pos } => BuildErrorModel::UnmatchedClose {
                pos: *pos as int,
            },
            BuildError::UnmatchedOpen { id } => BuildErrorModel::UnmatchedOpen { id: *id as int },
        }
    }
}

/// The builder's state after some prefix of the stream: nodes emitted so far,
/// the buffered arithmetic/move run, the next fresh loop id, the stack of open
/// loop ids, the position reached, and the error once one has occurred.
pub struct BuilderState {
    pub out: Seq<BlockModel>,
    pub pending: Seq<Token>,
    pub next_id: int,
    pub stack: Seq<int>,
    pub pos: int,
    pub error: Option<BuildErrorModel>,
}

/// The nodes a flush of the buffered run emits: none for an empty buffer, else
/// exactly the one compressed node.
pub open spec fn flush_model(pending: Seq<Token>) -> Seq<BlockModel> {
    if pending.len() == 0 {
        Seq::empty()
    } else {
        seq![compress_model(pending)]
    }
}

/// The builder's state before any token: nothing emitted, empty buffer, ids
/// starting at 1, no open loop.
pub open spec fn init_state() -> BuilderState {
    BuilderState {
        out: Seq::empty(),
        pending: Seq::empty(),
        next_id: 1,
        stack: Seq::empty(),
        pos: 0,
        error: None,
    }
}

/// One builder step. Arithmetic/move tokens are buffered; every boundary token
/// flushes the buffer, appends its own node, and clears the buffer; a close
/// with no loop open records the error, after which the state is frozen.
pub open spec fn step(st: BuilderState, t: Token) -> BuilderState {
    if st.error is Some {
        st
    } else if is_arith_move(t) {
        BuilderState { pending: st.pending.push(t), pos: st.pos + 1, ..st }
    } else if t == Token::Inp {
        BuilderState {
            out: st.out + flush_model(st.pending) + seq![BlockModel::Input],
            pending: Seq::empty(),
            pos: st.pos + 1,
            ..st
        }
    } else if t == Token::Out {
        BuilderState {
            out: st.out + flush_model(st.pending) + seq![BlockModel::Output],
            pending: Seq::empty(),
            pos: st.pos + 1,
            ..st
        }
    } else if t == Token::Opn {
        BuilderState {
            out: st.out + flush_model(st.pending) + seq![BlockModel::LoopOpen(st.next_id)],
            pending: Seq::empty(),
            next_id: st.next_id + 1,
            stack: st.stack.push(st.next_id),
            pos: st.pos + 1,
            ..st
        }
    } else if st.stack.len() == 0 {
        BuilderState { error: Some(BuildErrorModel::UnmatchedClose { pos: st.pos }), ..st }
    } else {
        BuilderState {
            out: st.out + flush_model(st.pending) + seq![BlockModel::LoopClose(st.stack.last())],
            pending: Seq::empty(),
            stack: st.stack.drop_last(),
            pos: st.pos + 1,
            ..st
        }
    }
}

/// The builder's state after the whole stream.
pub open spec fn run_steps(tokens: Seq<Token>) -> BuilderState
    decreases tokens.len(),
{
    if tokens.len() == 0 {
        init_state()
    } else {
        step(run_steps(tokens.drop_last()), tokens.last())
    }
}

/// What building a token stream yields: the emitted nodes with the trailing
/// buffer flushed, or the structural error — an unmatched close at its
/// position, or, with the stream exhausted and loops still open, the innermost
/// open loop's id.
pub open spec fn build_model(tokens: Seq<Token>) -> Result<Seq<BlockModel>, BuildErrorModel> {
    let st = run_steps(tokens);
    match st.error {
        Some(e) => Err(e),
        None => if st.stack.len() > 0 {
            Err(BuildErrorModel::UnmatchedOpen { id: st.stack.last() })
        } else {
            Ok(st.out + flush_model(st.pending))
        },
    }
}

/// Flush the buffered run: append its compressed node (if the buffer is
/// non-empty) and clear the buffer.
fn flush_pending(out: &mut Vec<Block>, pending: &mut Vec<Token>)
    requires
        arith_move_only(old(pending)@),
    ensures
        views_of(final(out)@) == views_of(old(out)@) + flush_model(old(pending)@),
        final(pending)@ == Seq::<Token>::empty(),
{
    if pending.len() > 0 {
        let b = run_block(pending);
        out.push(b);
        pending.clear();
        proof {
            assert(views_of(out@) =~= views_of(old(out)@) + flush_model(old(pending)@));
        }
    } else {
        proof {
            assert(pending@ =~= Seq::<Token>::empty());
            assert(views_of(out@) =~= views_of(out@) + flush_model(pending@));
        }
    }
}

/// Build the IR node sequence for a token stream, or report the structural
/// error. The result is exactly what the builder model prescribes, for every
/// input.
pub fn mk_block(source: Vec<Token>) -> (r: Result<Vec<Block>, BuildError>)
    requires
        source@.len() < usize::MAX,
    ensures
        r matches Ok(blocks) ==> build_model(source@)
            == Ok::<Seq<BlockModel>, BuildErrorModel>(views_of(blocks@)),
        r matches Err(e) ==> build_model(source@)
            == Err::<Seq<BlockModel>, BuildErrorModel>(e@),
{
    let n = source.len();
    let mut out: Vec<Block> = Vec::new();
    let mut pending: Vec<Token> = Vec::new();
    let mut next_id: usize = 1;
    let mut stack: Vec<usize> = Vec::new();

    proof {
        assert(source@.take(0) =~= Seq::<Token>::empty());
        assert(views_of(out@) =~= Seq::<BlockModel>::empty());
        assert(stack@.map_values(|x: usize| x as int) =~= Seq::<int>::empty());
    }
    for i in 0..n
        invariant
            n == source@.len(),
            n < usize::MAX,
            run_steps(source@.take(i as int)) == (BuilderState {
                out: views_of(out@),
                pending: pending@,
                next_id: next_id as int,
                stack: stack@.map_values(|x: usize| x as int),
                pos: i as int,
                error: None,
            }),
            next_id <= i + 1,
            arith_move_only(pending@),
    {
        let ghost p = source@.take(i as int);
        let ghost st = run_steps(p);
        proof {
            assert(source@.take(i + 1).drop_last() =~= p);
            assert(source@.take(i + 1).last() == source@[i as int]);
        }
        let t = source[i];
        match t {
            Token::Inp => {
                flush_pending(&mut out, &mut pending);
                out.push(Block::Input);
                proof {
                    assert(views_of(out@) =~= st.out + flush_model(st.pending)
                        + seq![BlockModel::Input]);
                }
            },
            Token::Out => {
                flush_pending(&mut out, &mut pending);
                out.push(Block::Output);
                proof {
                    assert(views_of(out@) =~= st.out + flush_model(st.pending)
                        + seq![BlockModel::Output]);
                }
            },
            Token::Opn => {
                flush_pending(&mut out, &mut pending);
                out.push(Block::LoopOpen(next_id));
                stack.push(next_id);
                next_id = next_id + 1;
                proof {
                    assert(views_of(out@) =~= st.out + flush_model(st.pending)
                        + seq![BlockModel::LoopOpen(st.next_id)]);
                    assert(stack@.map_values(|x: usize| x as int)
                        =~= st.stack.push(st.next_id));
                }
            },
            Token::Cls => {
                let popped = stack.pop();
                match popped {
                    None => {
                        proof {
                            assert(st.stack.len() == 0);
                            lemma_error_persists(source@, i + 1);
                            assert(source@.take(source@.len() as int) =~= source@);
                        }
                        return Err(BuildError::UnmatchedClose { pos: i });
                    },
                    Some(id) => {
                        flush_pending(&mut out, &mut pending);
                        out.push(Block::LoopClose(id));
                        proof {
                            assert(st.stack.len() > 0);
                            assert(st.stack.last() == id as int);
                            assert(views_of(out@) =~= st.out + flush_model(st.pending)
                                + seq![BlockModel::LoopClose(st.stack.last())]);
                            assert(stack@.map_values(|x: usize| x as int)
                                =~= st.stack.drop_last());
                        }
                    },
                }
            },
            _ => {
                proof {
                    assert(is_arith_move(t));
                }
                pending.push(t);
            },
        }
    }

    proof {
        assert(source@.take(n as int) =~= source@);
    }
    if stack.len() > 0 {
        let id = stack[stack.len() - 1];
        proof {
            let ghost st = run_steps(source@);
            assert(st.stack.last() == id as int);
        }
        return Err(BuildError::UnmatchedOpen { id });
    }
    flush_pending(&mut out, &mut pending);
    Ok(out)
}

/// Ids of the loop-open markers of a node sequence, as a multiset.
pub open spec fn open_id_multiset(nodes: Seq<BlockModel>) -> Multiset<int>
    decreases nodes.len(),
{
    if nodes.len() == 0 {
        Multiset::empty()
    } else {
        match nodes.last() {
            BlockModel::LoopOpen(id) => open_id_multiset(nodes.drop_last()).insert(id),
            _ => open_id_multiset(nodes.drop_last()),
        }
    }
}

/// Ids of the loop-close markers of a node sequence, as a multiset.
pub open spec fn close_id_multiset(nodes: Seq<BlockModel>) -> Multiset<int>
    decreases nodes.len(),
{
    if nodes.len() == 0 {
        Multiset::empty()
    } else {
        match nodes.last() {
            BlockModel::LoopClose(id) => close_id_multiset(nodes.drop_last()).insert(id),
            _ => close_id_multiset(nodes.drop_last()),
        }
    }
}

/// A sequence of ids as a multiset.
pub open spec fn id_multiset(ids: Seq<int>) -> Multiset<int>
    decreases ids.len(),
{
    if ids.len() == 0 {
        Multiset::empty()
    } else {
        id_multiset(ids.drop_last()).insert(ids.last())
    }
}

/// Ids of the loops opened and not yet closed in a node sequence, innermost
/// last.
pub open spec fn pending_opens(nodes: Seq<BlockModel>) -> Seq<int>
    decreases nodes.len(),
{
    if nodes.len() == 0 {
        Seq::empty()
    } else {
        let rest = pending_opens(nodes.drop_last());
        match nodes.last() {
            BlockModel::LoopOpen(id) => rest.push(id),
            BlockModel::LoopClose(_) => if rest.len() > 0 {
                rest.drop_last()
            } else {
                rest
            },
            _ => rest,
        }
    }
}

/// Every close marker closes the loop opened last among those still open:
/// last-opened, first-closed.
pub open spec fn closes_well_nested(nodes: Seq<BlockModel>) -> bool {
    forall|i: int| 0 <= i < nodes.len()
        ==> (#[trigger] nodes[i] matches BlockModel::LoopClose(id)
            ==> pending_opens(nodes.take(i)).len() > 0 && pending_opens(nodes.take(i)).last() == id)
}

proof fn lemma_push_non_loop(out: Seq<BlockModel>, node: BlockModel)
    requires
        !(node is LoopOpen),
        !(node is LoopClose),
    ensures
        pending_opens(out.push(node)) == pending_opens(out),
        open_id_multiset(out.push(node)) == open_id_multiset(out),
        close_id_multiset(out.push(node)) == close_id_multiset(out),
        closes_well_nested(out) ==> closes_well_nested(out.push(node)),
{
    assert(out.push(node).drop_last() =~= out);
    assert(out.push(node).last() == node);
    if closes_well_nested(out) {
        assert forall|i: int| 0 <= i < out.push(node).len()
            implies (#[trigger] out.push(node)[i] matches BlockModel::LoopClose(id)
                ==> pending_opens(out.push(node).take(i)).len() > 0
                    && pending_opens(out.push(node).take(i)).last() == id) by {
            if i < out.len() {
                assert(out.push(node)[i] == out[i]);
                assert(out.push(node).take(i) =~= out.take(i));
            }
        }
    }
}

proof fn lemma_push_open(out: Seq<BlockModel>, id: int)
    ensures
        pending_opens(out.push(BlockModel::LoopOpen(id))) == pending_opens(out).push(id),
        open_id_multiset(out.push(BlockModel::LoopOpen(id))) == open_id_multiset(out).insert(id),
        close_id_multiset(out.push(BlockModel::LoopOpen(id))) == close_id_multiset(out),
        closes_well_nested(out) ==> closes_well_nested(out.push(BlockModel::LoopOpen(id))),
{
    let node = BlockModel::LoopOpen(id);
    assert(out.push(node).drop_last() =~= out);
    assert(out.push(node).last() == node);
    if closes_well_nested(out) {
        assert forall|i: int| 0 <= i < out.push(node).len()
            implies (#[trigger] out.push(node)[i] matches BlockModel::LoopClose(cid)
                ==> pending_opens(out.push(node).take(i)).len() > 0
                    && pending_opens(out.push(node).take(i)).last() == cid) by {
            if i < out.len() {
                assert(out.push(node)[i] == out[i]);
                assert(out.push(node).take(i) =~= out.take(i));
            }
        }
    }
}

proof fn lemma_push_close(out: Seq<BlockModel>, id: int)
    requires
        pending_opens(out).len() > 0,
        pending_opens(out).last() == id,
        closes_well_nested(out),
    ensures
        pending_opens(out.push(BlockModel::LoopClose(id))) == pending_opens(out).drop_last(),
        open_id_multiset(out.push(BlockModel::LoopClose(id))) == open_id_multiset(out),
        close_id_multiset(out.push(BlockModel::LoopClose(id)))
            == close_id_multiset(out).insert(id),
        closes_well_nested(out.push(BlockModel::LoopClose(id))),
{
    let node = BlockModel::LoopClose(id);
    assert(out.push(node).drop_last() =~= out);
    assert(out.push(node).last() == node);
    assert forall|i: int| 0 <= i < out.push(node).len()
        implies (#[trigger] out.push(node)[i] matches BlockModel::LoopClose(cid)
            ==> pending_opens(out.push(node).take(i)).len() > 0
                && pending_opens(out.push(node).take(i)).last() == cid) by {
        if i < out.len() {
            assert(out.push(node)[i] == out[i]);
            assert(out.push(node).take(i) =~= out.take(i));
        } else {
            assert(out.push(node).take(i) =~= out);
        }
    }
}

/// A flushed buffer emits no loop marker: the compressed node leaves the open
/// loops, and the marker multisets, as they were.
proof fn lemma_append_flush(out: Seq<BlockModel>, pending: Seq<Token>)
    ensures
        pending_opens(out + flush_model(pending)) == pending_opens(out),
        open_id_multiset(out + flush_model(pending)) == open_id_multiset(out),
        close_id_multiset(out + flush_model(pending)) == close_id_multiset(out),
        closes_well_nested(out) ==> closes_well_nested(out + flush_model(pending)),
{
    if pending.len() == 0 {
        assert(out + flush_model(pending) =~= out);
    } else {
        let node = compress_model(pending);
        assert(!(node is LoopOpen) && !(node is LoopClose));
        assert(out + flush_model(pending) =~= out.push(node));
        lemma_push_non_loop(out, node);
    }
}

proof fn lemma_add_insert_comm(m1: Multiset<int>, m2: Multiset<int>, x: int)
    ensures
        m1.add(m2.insert(x)) == m1.add(m2).insert(x),
        m1.insert(x).add(m2) == m1.add(m2).insert(x),
{
    assert(m1.add(m2.insert(x)) =~= m1.add(m2).insert(x));
    assert(m1.insert(x).add(m2) =~= m1.add(m2).insert(x));
}

/// The builder's unfailed state is consistent: its stack lists exactly the
/// loops opened and not yet closed, every open id is a close id or still on
/// the stack, and every emitted close closes the innermost open loop.
pub open spec fn builder_consistent(st: BuilderState) -> bool {
    &&& st.stack == pending_opens(st.out)
    &&& open_id_multiset(st.out) == close_id_multiset(st.out).add(id_multiset(st.stack))
    &&& closes_well_nested(st.out)
}

proof fn lemma_run_steps_consistent(tokens: Seq<Token>)
    ensures
        run_steps(tokens).error is None ==> builder_consistent(run_steps(tokens)),
    decreases tokens.len(),
{
    if tokens.len() == 0 {
        assert(close_id_multiset(Seq::<BlockModel>::empty()).add(
            id_multiset(Seq::<int>::empty())) =~= Multiset::<int>::empty());
    } else {
        let s = tokens.drop_last();
        let t = tokens.last();
        lemma_run_steps_consistent(s);
        let st = run_steps(s);
        let st2 = run_steps(tokens);
        if st.error is None && st2.error is None {
            if is_arith_move(t) {
                // out and stack unchanged
            } else if t == Token::Inp {
                lemma_append_flush(st.out, st.pending);
                let mid = st.out + flush_model(st.pending);
                assert(st2.out =~= mid.push(BlockModel::Input));
                lemma_push_non_loop(mid, BlockModel::Input);
            } else if t == Token::Out {
                lemma_append_flush(st.out, st.pending);
                let mid = st.out + flush_model(st.pending);
                assert(st2.out =~= mid.push(BlockModel::Output));
                lemma_push_non_loop(mid, BlockModel::Output);
            } else if t == Token::Opn {
                lemma_append_flush(st.out, st.pending);
                let mid = st.out + flush_model(st.pending);
                assert(st2.out =~= mid.push(BlockModel::LoopOpen(st.next_id)));
                lemma_push_open(mid, st.next_id);
                assert(st.stack.push(st.next_id).drop_last() =~= st.stack);
                assert(st.stack.push(st.next_id).last() == st.next_id);
                assert(id_multiset(st.stack.push(st.next_id))
                    == id_multiset(st.stack).insert(st.next_id));
                lemma_add_insert_comm(close_id_multiset(st.out), id_multiset(st.stack),
                    st.next_id);
            } else {
                assert(t == Token::Cls && st.stack.len() > 0);
                let id = st.stack.last();
                lemma_append_flush(st.out, st.pending);
                let mid = st.out + flush_model(st.pending);
                assert(st2.out =~= mid.push(BlockModel::LoopClose(id)));
                lemma_push_close(mid, id);
                assert(id_multiset(st.stack)
                    == id_multiset(st.stack.drop_last()).insert(id));
                lemma_add_insert_comm(close_id_multiset(st.out),
                    id_multiset(st.stack.drop_last()), id);
                assert(open_id_multiset(st2.out)
                    =~= close_id_multiset(st2.out).add(id_multiset(st2.stack)));
            }
        }
    }
}

/// Law: in a built node sequence the loop-open ids and the loop-close ids are
/// the same multiset, and at every position the not-yet-closed opens behave as
/// a stack — each close marker closes the loop opened last.
pub proof fn lemma_loop_matching(tokens: Seq<Token>, nodes: Seq<BlockModel>)
    requires
        build_model(tokens) == Ok::<Seq<BlockModel>, BuildErrorModel>(nodes),
    ensures
        open_id_multiset(nodes) == close_id_multiset(nodes),
        closes_well_nested(nodes),
{
    lemma_run_steps_consistent(tokens);
    let st = run_steps(tokens);
    lemma_append_flush(st.out, st.pending);
    assert(nodes == st.out + flush_model(st.pending));
    assert(id_multiset(st.stack) =~= Multiset::<int>::empty());
    assert(close_id_multiset(st.out).add(Multiset::<int>::empty())
        =~= close_id_multiset(st.out));
}

/// Number of loop-open tokens in a stream.
pub open spec fn opens(tokens: Seq<Token>) -> int
    decreases tokens.len(),
{
    if tokens.len() == 0 {
        0
    } else {
        opens(tokens.drop_last()) + if tokens.last() == Token::Opn {
            1int
        } else {
            0
        }
    }
}

/// Number of loop-close tokens in a stream.
pub open spec fn closes(tokens: Seq<Token>) -> int
    decreases tokens.len(),
{
    if tokens.len() == 0 {
        0
    } else {
        closes(tokens.drop_last()) + if tokens.last() == Token::Cls {
            1int
        } else {
            0
        }
    }
}

/// Balanced loop markers: no prefix closes more loops than it has opened, and
/// the whole stream closes every loop it opens.
pub open spec fn balanced(tokens: Seq<Token>) -> bool {
    &&& forall|i: int| 0 <= i <= tokens.len()
        ==> closes(#[trigger] tokens.take(i)) <= opens(tokens.take(i))
    &&& opens(tokens) == closes(tokens)
}

proof fn lemma_counts(tokens: Seq<Token>)
    ensures
        run_steps(tokens).error is None <==> (forall|i: int| 0 <= i <= tokens.len()
            ==> closes(#[trigger] tokens.take(i)) <= opens(tokens.take(i))),
        run_steps(tokens).error is None ==> run_steps(tokens).stack.len()
            == opens(tokens) - closes(tokens),
    decreases tokens.len(),
{
    if tokens.len() == 0 {
        assert forall|i: int| 0 <= i <= tokens.len()
            implies closes(#[trigger] tokens.take(i)) <= opens(tokens.take(i)) by {
            assert(tokens.take(i) =~= tokens);
        }
    } else {
        let s = tokens.drop_last();
        let t = tokens.last();
        lemma_counts(s);
        let st = run_steps(s);
        let st2 = run_steps(tokens);
        assert(tokens.take(tokens.len() as int) =~= tokens);
        if st.error is None {
            if t == Token::Cls && st.stack.len() == 0 {
                assert(st2.error is Some);
                assert(opens(s) == closes(s));
                assert(closes(tokens) == opens(tokens) + 1);
                if (forall|i: int| 0 <= i <= tokens.len()
                    ==> closes(#[trigger] tokens.take(i)) <= opens(tokens.take(i))) {
                    assert(closes(tokens.take(tokens.len() as int))
                        <= opens(tokens.take(tokens.len() as int)));
                    assert(false);
                }
            } else {
                assert(st2.error is None);
                assert forall|i: int| 0 <= i <= tokens.len()
                    implies closes(#[trigger] tokens.take(i)) <= opens(tokens.take(i)) by {
                    if i <= s.len() {
                        assert(tokens.take(i) =~= s.take(i));
                        assert(closes(s.take(i)) <= opens(s.take(i)));
                    }
                }
            }
        } else {
            assert(st2.error is Some);
            if (forall|i: int| 0 <= i <= tokens.len()
                ==> closes(#[trigger] tokens.take(i)) <= opens(tokens.take(i))) {
                assert forall|i: int| 0 <= i <= s.len()
                    implies closes(#[trigger] s.take(i)) <= opens(s.take(i)) by {
                    assert(tokens.take(i) =~= s.take(i));
                    assert(closes(tokens.take(i)) <= opens(tokens.take(i)));
                }
                assert(false);
            }
        }
    }
}

/// Law: building succeeds exactly on streams with balanced loop markers. A
/// close marker with no open loop, or a loop left open at the end of the
/// stream, always surfaces the structural error — never a silently truncated
/// or mismatched node sequence.
pub proof fn lemma_build_ok_iff_balanced(tokens: Seq<Token>)
    ensures
        build_model(tokens) is Ok <==> balanced(tokens),
{
    lemma_counts(tokens);
}

/// Once the builder has recorded an error, every later step keeps it: the
/// whole stream reports the error of the prefix that caused it.
proof fn lemma_error_persists(tokens: Seq<Token>, i: int)
    requires
        0 <= i <= tokens.len(),
        run_steps(tokens.take(i)).error is Some,
    ensures
        run_steps(tokens).error == run_steps(tokens.take(i)).error,
    decreases tokens.len() - i,
{
    if i == tokens.len() {
        assert(tokens.take(i) =~= tokens);
    } else {
        assert(tokens.take(i + 1).drop_last() =~= tokens.take(i));
        assert(tokens.take(i + 1).last() == tokens[i]);
        lemma_error_persists(tokens, i + 1);
    }
}

} // verus!
