//! Instruction tokens and the tokenizer: every recognized character becomes a
//! token, everything else is dropped silently.

use vstd::prelude::*;

verus! {

/// One instruction of the source language, one character each.
#[derive(Clone, Copy, Debug, PartialEq, Eq, Structural)]
pub enum Token {
    /// `+`: increment the current cell.
    Inc,
    /// `-`: decrement the current cell.
    Dec,
    /// `[`: open a loop.
    Opn,
    /// `]`: close a loop.
    Cls,
    /// `<`: move the pointer one cell left.
    Lft,
    /// `>`: move the pointer one cell right.
    Rgh,
    /// `.`: write the current cell.
    Out,
    /// `,`: read into the current cell.
    Inp,
}

/// The instruction a character denotes, if any.
pub open spec fn token_of_char(c: char) -> Option<Token> {
    match c {
        '+' => Some(Token::Inc),
        '-' => Some(Token::Dec),
        '[' => Some(Token::Opn),
        ']' => Some(Token::Cls),
        '>' => Some(Token::Rgh),
        '<' => Some(Token::Lft),
        '.' => Some(Token::Out),
        ',' => Some(Token::Inp),
        _ => None,
    }
}

/// The token sequence of a source text: the instruction characters in source
/// order, with all other characters dropped.
pub open spec fn tokenize(s: Seq<char>) -> Seq<Token>
    decreases s.len(),
{
    if s.len() == 0 {
        Seq::empty()
    } else {
        tokenize(s.drop_last()) + (match token_of_char(s.last()) {
            Some(t) => seq![t],
            None => Seq::<Token>::empty(),
        })
    }
}

fn char_token(c: char) -> (r: Option<Token>)
    ensures
        r == token_of_char(c),
{
    match c {
        '+' => Some(Token::Inc),
        '-' => Some(Token::Dec),
        '[' => Some(Token::Opn),
        ']' => Some(Token::Cls),
        '>' => Some(Token::Rgh),
        '<' => Some(Token::Lft),
        '.' => Some(Token::Out),
        ',' => Some(Token::Inp),
        _ => None,
    }
}

/// Turn a source text into its token sequence, dropping every character that
/// is not an instruction. Total: no input is rejected.
pub fn parse_source(source: String) -> (tokens: Vec<Token>)
    ensures
        tokens@ == tokenize(source@),
{
    let s = source.as_str();
    let n = s.unicode_len();
    let mut tokens: Vec<Token> = Vec::new();
    for i in 0..n
        invariant
            n == source@.len(),
            s@ == source@,
            tokens@ == tokenize(source@.take(i as int)),
    {
        let c = s.get_char(i);
        let r = char_token(c);
        match r {
            Some(t) => tokens.push(t),
            None => {},
        }
        proof {
            assert(source@.take(i + 1).drop_last() =~= source@.take(i as int));
            assert(source@.take(i + 1).last() == source@[i as int]);
            if token_of_char(source@[i as int]) is None {
                assert(tokens@ =~= tokenize(source@.take(i as int))
                    + Seq::<Token>::empty());
            }
        }
    }
    proof {
        assert(source@.take(n as int) =~= source@);
    }
    tokens
}

/// Law: tokenizing the concatenation of two texts yields the concatenation of
/// their token sequences.
pub proof fn lemma_tokenize_concat(a: Seq<char>, b: Seq<char>)
    ensures
        tokenize(a + b) == tokenize(a) + tokenize(b),
    decreases b.len(),
{
    if b.len() == 0 {
        assert(a + b =~= a);
        assert(tokenize(a) + tokenize(b) =~= tokenize(a));
    } else {
        lemma_tokenize_concat(a, b.drop_last());
        assert((a + b).drop_last() =~= a + b.drop_last());
        assert((a + b).last() == b.last());
        let piece = (match token_of_char(b.last()) {
            Some(t) => seq![t],
            None => Seq::<Token>::empty(),
        });
        assert(tokenize(a + b) == (tokenize(a) + tokenize(b.drop_last())) + piece);
        assert((tokenize(a) + tokenize(b.drop_last())) + piece
            =~= tokenize(a) + (tokenize(b.drop_last()) + piece));
    }
}

} // verus!
