use bf_ir::builder::{mk_block, BuildError};
use bf_ir::compress::run_block;
use bf_ir::ir::Block;
use bf_ir::token::{parse_source, Token};

#[test]
fn test_parser() {
    let sample = parse_source("+-<>.,[]".to_string());
    let expected = vec![
        Token::Inc,
        Token::Dec,
        Token::Lft,
        Token::Rgh,
        Token::Out,
        Token::Inp,
        Token::Opn,
        Token::Cls,
    ];
    assert_eq!(sample, expected);
}

#[test]
fn test_run_block() {
    let ex = parse_source("->+>+<<".to_string());
    let block_repr = run_block(&ex);
    let expected = Block::Block {
        delta: vec![-1, 1, 1],
        delta_start: 0,
        delta_ptr: 0,
    };
    assert_eq!(block_repr, expected);

    let ex = parse_source("++<-".to_string());
    let block_repr = run_block(&ex);
    let expected = Block::Block {
        delta: vec![-1, 2],
        delta_start: -1,
        delta_ptr: -1,
    };
    assert_eq!(block_repr, expected);

    let ex = parse_source("++<->->+".to_string());
    let block_repr = run_block(&ex);
    let expected = Block::Block {
        delta: vec![-1, 1, 1],
        delta_start: -1,
        delta_ptr: 1,
    };
    assert_eq!(block_repr, expected);
}

#[test]
fn test_mk_block() {
    let source_code = parse_source("+++[->+>+<<].>.>.".to_string());
    let parsed = mk_block(source_code).unwrap();
    let expected = vec![
        Block::Block {
            delta: vec![3],
            delta_start: 0,
            delta_ptr: 0,
        },
        Block::LoopOpen(1),
        Block::Block {
            delta: vec![-1, 1, 1],
            delta_start: 0,
            delta_ptr: 0,
        },
        Block::LoopClose(1),
        Block::Output,
        Block::Right,
        Block::Output,
        Block::Right,
        Block::Output,
    ];
    assert_eq!(parsed, expected);
}

#[test]
fn tokenizing_twice_is_identical() {
    let first = parse_source("a+b-c[d]e.<f>,g".to_string());
    let second = parse_source("a+b-c[d]e.<f>,g".to_string());
    assert_eq!(first, second);
}

#[test]
fn tokenizing_concatenation_concatenates() {
    let left = "+x[-";
    let right = "ab]>.";
    let mut both = parse_source(left.to_string());
    both.extend(parse_source(right.to_string()));
    let joined = parse_source(format!("{left}{right}"));
    assert_eq!(joined, both);
}

#[test]
fn tokenizer_drops_everything_else() {
    assert_eq!(parse_source("hello world 123\n\t".to_string()), vec![]);
}

#[test]
fn lone_moves_become_pure_move_nodes() {
    assert_eq!(run_block(&vec![Token::Lft]), Block::Left);
    assert_eq!(run_block(&vec![Token::Rgh]), Block::Right);
}

#[test]
fn single_arithmetic_is_a_delta_block() {
    assert_eq!(
        run_block(&vec![Token::Inc]),
        Block::Block {
            delta: vec![1],
            delta_start: 0,
            delta_ptr: 0,
        }
    );
}

#[test]
fn empty_source_builds_an_empty_sequence() {
    assert_eq!(mk_block(vec![]), Ok(vec![]));
}

#[test]
fn io_boundaries_flush_and_clear_the_buffer() {
    let tokens = parse_source(",+.".to_string());
    let blocks = mk_block(tokens).unwrap();
    let expected = vec![
        Block::Input,
        Block::Block {
            delta: vec![1],
            delta_start: 0,
            delta_ptr: 0,
        },
        Block::Output,
    ];
    assert_eq!(blocks, expected);
}

#[test]
fn trailing_run_is_flushed() {
    let blocks = mk_block(parse_source(".++".to_string())).unwrap();
    let expected = vec![
        Block::Output,
        Block::Block {
            delta: vec![2],
            delta_start: 0,
            delta_ptr: 0,
        },
    ];
    assert_eq!(blocks, expected);
}

#[test]
fn nested_loops_get_matched_ids() {
    let blocks = mk_block(parse_source("[[][]]".to_string())).unwrap();
    let expected = vec![
        Block::LoopOpen(1),
        Block::LoopOpen(2),
        Block::LoopClose(2),
        Block::LoopOpen(3),
        Block::LoopClose(3),
        Block::LoopClose(1),
    ];
    assert_eq!(blocks, expected);
}

#[test]
fn leading_unmatched_close_is_an_error() {
    let r = mk_block(parse_source("]".to_string()));
    assert_eq!(r, Err(BuildError::UnmatchedClose { pos: 0 }));
}

#[test]
fn unmatched_close_reports_its_position() {
    let r = mk_block(parse_source("+]".to_string()));
    assert_eq!(r, Err(BuildError::UnmatchedClose { pos: 1 }));
    let r = mk_block(parse_source("[]]".to_string()));
    assert_eq!(r, Err(BuildError::UnmatchedClose { pos: 2 }));
}

#[test]
fn trailing_unmatched_open_is_an_error() {
    let r = mk_block(parse_source("+++[".to_string()));
    assert_eq!(r, Err(BuildError::UnmatchedOpen { id: 1 }));
}

#[test]
fn unmatched_open_reports_the_innermost_id() {
    let r = mk_block(parse_source("[[".to_string()));
    assert_eq!(r, Err(BuildError::UnmatchedOpen { id: 2 }));
    let r = mk_block(parse_source("[[]".to_string()));
    assert_eq!(r, Err(BuildError::UnmatchedOpen { id: 1 }));
}
