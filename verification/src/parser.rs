//! The parser: source text to a tree of instructions, with run-length
//! merging of adjacent pointer and cell operations.

use vstd::prelude::*;

pub use crate::errors::ParseError;

use crate::interpreter::{byte_add, byte_sub};
use vstd::string::StringSliceAdditionalSpecFns;

verus! {

/// One node of a parsed program.
///
/// Runs of `>`/`<` and of `+`/`-` are merged at parse time into a single
/// node carrying the net delta; a run whose net delta returns to zero
/// leaves no node at all.
#[derive(Debug, PartialEq, Eq)]
pub enum Token {
    /// Move the data pointer right by the given amount.
    IncrementDataPointer(usize),
    /// Move the data pointer left by the given amount.
    DecrementDataPointer(usize),
    /// Add the given amount to the current cell, modulo 256.
    IncrementByte(u8),
    /// Subtract the given amount from the current cell, modulo 256.
    DecrementByte(u8),
    /// Emit the current cell as one byte of output.
    WriteByte,
    /// Read one byte of input into the current cell; at end of input the
    /// cell is left unchanged.
    ReadByte,
    /// Repeat the body while the current cell is nonzero.
    Loop(Vec<Token>),
}

/// The mathematical shape of a [`Token`]: the same tree with the nested
/// vector replaced by a sequence, so that specifications can build and
/// compare instruction trees.
pub enum Node {
    IncrementDataPointer(usize),
    DecrementDataPointer(usize),
    IncrementByte(u8),
    DecrementByte(u8),
    WriteByte,
    ReadByte,
    Loop(Seq<Node>),
}

impl Token {
    /// The [`Node`] this token stands for.
    pub open spec fn deep(self) -> Node
        decreases self,
    {
        match self {
            Token::IncrementDataPointer(i) => Node::IncrementDataPointer(i),
            Token::DecrementDataPointer(i) => Node::DecrementDataPointer(i),
            Token::IncrementByte(i) => Node::IncrementByte(i),
            Token::DecrementByte(i) => Node::DecrementByte(i),
            Token::WriteByte => Node::WriteByte,
            Token::ReadByte => Node::ReadByte,
            Token::Loop(body) => Node::Loop(deep_seq(body@)),
        }
    }
}

/// The sequence of [`Node`]s a sequence of [`Token`]s stands for.
pub open spec fn deep_seq(ts: Seq<Token>) -> Seq<Node>
    decreases ts,
{
    if ts.len() == 0 {
        Seq::empty()
    } else {
        seq![ts[0].deep()] + deep_seq(ts.drop_first())
    }
}

/// `deep_seq` maps each token in place: same length, element by element.
pub proof fn lemma_deep_seq_index(ts: Seq<Token>)
    ensures
        deep_seq(ts).len() == ts.len(),
        forall|i: int| 0 <= i < ts.len() ==> deep_seq(ts)[i] == ts[i].deep(),
    decreases ts.len(),
{
    if ts.len() > 0 {
        lemma_deep_seq_index(ts.drop_first());
    }
}

/// Walking a token sequence one element at a time walks its `deep_seq`
/// in step: at position `i` the head is `ts[i].deep()` and the tail is
/// the `deep_seq` of the remaining tokens.
pub proof fn lemma_deep_seq_skip(ts: Seq<Token>, i: int)
    requires
        0 <= i < ts.len(),
    ensures
        deep_seq(ts.skip(i)).len() == ts.len() - i,
        deep_seq(ts.skip(i))[0] == ts[i].deep(),
        deep_seq(ts.skip(i)).drop_first() == deep_seq(ts.skip(i + 1)),
{
    lemma_deep_seq_index(ts.skip(i));
    lemma_deep_seq_index(ts.skip(i + 1));
    assert(deep_seq(ts.skip(i)).drop_first() =~= deep_seq(ts.skip(i + 1)));
}

/// Appending one token appends its node to the `deep_seq`.
pub proof fn lemma_deep_seq_push(ts: Seq<Token>, t: Token)
    ensures
        deep_seq(ts.push(t)) == deep_seq(ts).push(t.deep()),
{
    lemma_deep_seq_index(ts);
    lemma_deep_seq_index(ts.push(t));
    assert(deep_seq(ts.push(t)) =~= deep_seq(ts).push(t.deep()));
}

/// Dropping the last token drops the last node of the `deep_seq`.
pub proof fn lemma_deep_seq_drop_last(ts: Seq<Token>)
    requires
        ts.len() > 0,
    ensures
        deep_seq(ts.drop_last()) == deep_seq(ts).drop_last(),
        deep_seq(ts).last() == ts.last().deep(),
{
    lemma_deep_seq_index(ts);
    lemma_deep_seq_index(ts.drop_last());
    assert(deep_seq(ts.drop_last()) =~= deep_seq(ts).drop_last());
}

/// One less than a pointer delta, wrapping at zero exactly as the
/// machine subtraction does; a zero delta never arises from parsing,
/// but the function is total.
pub open spec fn delta_down(i: usize) -> usize {
    if i == 0 {
        usize::MAX
    } else {
        (i - 1) as usize
    }
}

/// The sequence after a `>`: merged into the last node where that node
/// moves the pointer, a fresh unit node otherwise; a run that no longer
/// fits the pointer-delta range is an error.
pub open spec fn merge_right(cur: Seq<Node>) -> Result<Seq<Node>, ParseError> {
    if cur.len() == 0 {
        Ok(cur.push(Node::IncrementDataPointer(1)))
    } else {
        match cur.last() {
            Node::IncrementDataPointer(i) => {
                if i == usize::MAX {
                    Err(ParseError::DataPointerIncrementOverflow)
                } else {
                    Ok(cur.update(cur.len() - 1, Node::IncrementDataPointer((i + 1) as usize)))
                }
            },
            Node::DecrementDataPointer(i) => {
                if i == 1 {
                    Ok(cur.drop_last())
                } else {
                    Ok(cur.update(cur.len() - 1, Node::DecrementDataPointer(delta_down(i))))
                }
            },
            _ => Ok(cur.push(Node::IncrementDataPointer(1))),
        }
    }
}

/// The sequence after a `<`: the mirror image of [`merge_right`].
pub open spec fn merge_left(cur: Seq<Node>) -> Result<Seq<Node>, ParseError> {
    if cur.len() == 0 {
        Ok(cur.push(Node::DecrementDataPointer(1)))
    } else {
        match cur.last() {
            Node::DecrementDataPointer(i) => {
                if i == usize::MAX {
                    Err(ParseError::DataPointerDecrementOverflow)
                } else {
                    Ok(cur.update(cur.len() - 1, Node::DecrementDataPointer((i + 1) as usize)))
                }
            },
            Node::IncrementDataPointer(i) => {
                if i == 1 {
                    Ok(cur.drop_last())
                } else {
                    Ok(cur.update(cur.len() - 1, Node::IncrementDataPointer(delta_down(i))))
                }
            },
            _ => Ok(cur.push(Node::DecrementDataPointer(1))),
        }
    }
}

/// The sequence after a `+`: cell deltas wrap modulo 256 and so never
/// overflow.
pub open spec fn merge_add(cur: Seq<Node>) -> Seq<Node> {
    if cur.len() == 0 {
        cur.push(Node::IncrementByte(1))
    } else {
        match cur.last() {
            Node::IncrementByte(i) => cur.update(cur.len() - 1, Node::IncrementByte(byte_add(i, 1))),
            Node::DecrementByte(i) => {
                if i == 1 {
                    cur.drop_last()
                } else {
                    cur.update(cur.len() - 1, Node::DecrementByte(byte_sub(i, 1)))
                }
            },
            _ => cur.push(Node::IncrementByte(1)),
        }
    }
}

/// The sequence after a `-`: the mirror image of [`merge_add`].
pub open spec fn merge_sub(cur: Seq<Node>) -> Seq<Node> {
    if cur.len() == 0 {
        cur.push(Node::DecrementByte(1))
    } else {
        match cur.last() {
            Node::DecrementByte(i) => cur.update(cur.len() - 1, Node::DecrementByte(byte_add(i, 1))),
            Node::IncrementByte(i) => {
                if i == 1 {
                    cur.drop_last()
                } else {
                    cur.update(cur.len() - 1, Node::IncrementByte(byte_sub(i, 1)))
                }
            },
            _ => cur.push(Node::DecrementByte(1)),
        }
    }
}

/// One step of the parser on one source byte.
///
/// The parser state is a stack of unfinished node sequences: the first
/// element is the root sequence, each further element the body of a loop
/// still open, and the last element is the sequence under construction.
/// Bytes that are no instruction leave the state unchanged; that is how
/// the language embeds comments.
pub open spec fn parse_step(st: Seq<Seq<Node>>, b: u8) -> Result<Seq<Seq<Node>>, ParseError>
    recommends
        st.len() >= 1,
{
    let cur = st.last();
    if b == 62 {  // '>'
        match merge_right(cur) {
            Ok(c) => Ok(st.update(st.len() - 1, c)),
            Err(e) => Err(e),
        }
    } else if b == 60 {  // '<'
        match merge_left(cur) {
            Ok(c) => Ok(st.update(st.len() - 1, c)),
            Err(e) => Err(e),
        }
    } else if b == 43 {  // '+'
        Ok(st.update(st.len() - 1, merge_add(cur)))
    } else if b == 45 {  // '-'
        Ok(st.update(st.len() - 1, merge_sub(cur)))
    } else if b == 46 {  // '.'
        Ok(st.update(st.len() - 1, cur.push(Node::WriteByte)))
    } else if b == 44 {  // ','
        Ok(st.update(st.len() - 1, cur.push(Node::ReadByte)))
    } else if b == 91 {  // '['
        Ok(st.push(Seq::empty()))
    } else if b == 93 {  // ']'
        if st.len() <= 1 {
            Err(ParseError::UnmatchedSymbol(']'))
        } else {
            let popped = st.drop_last();
            Ok(popped.update(popped.len() - 1, popped.last().push(Node::Loop(cur))))
        }
    } else {
        Ok(st)
    }
}

/// Runs the parser from state `st` over the bytes of `s`, stopping at
/// the first error.
pub open spec fn parse_from(st: Seq<Seq<Node>>, s: Seq<u8>) -> Result<Seq<Seq<Node>>, ParseError>
    decreases s.len(),
{
    if s.len() == 0 {
        Ok(st)
    } else {
        match parse_step(st, s[0]) {
            Ok(st2) => parse_from(st2, s.drop_first()),
            Err(e) => Err(e),
        }
    }
}

/// The parser state before the first byte: one empty root sequence.
pub open spec fn initial_stack() -> Seq<Seq<Node>> {
    seq![Seq::empty()]
}

/// What parsing a whole source text yields: the root sequence when every
/// bracket found its partner, an error otherwise. A stack deeper than
/// one at the end means a `[` was never closed.
pub open spec fn parse_spec(s: Seq<u8>) -> Result<Seq<Node>, ParseError> {
    match parse_from(initial_stack(), s) {
        Ok(st) => {
            if st.len() == 1 {
                Ok(st[0])
            } else {
                Err(ParseError::UnmatchedSymbol('['))
            }
        },
        Err(e) => Err(e),
    }
}

/// The parser state that a frame stack and a current sequence stand
/// for: each frame as its nodes, the sequence under construction on top.
spec fn stack_model(frames: Seq<Vec<Token>>, cur: Seq<Token>) -> Seq<Seq<Node>> {
    frames.map_values(|v: Vec<Token>| deep_seq(v@)).push(deep_seq(cur))
}

/// Unfolds one byte of [`parse_from`] at position `idx`.
pub proof fn lemma_parse_from_step(st: Seq<Seq<Node>>, s: Seq<u8>, idx: int)
    requires
        0 <= idx < s.len(),
    ensures
        parse_from(st, s.skip(idx)) == match parse_step(st, s[idx]) {
            Ok(st2) => parse_from(st2, s.skip(idx + 1)),
            Err(e) => Err(e),
        },
{
    assert(s.skip(idx)[0] == s[idx]);
    assert(s.skip(idx).drop_first() =~= s.skip(idx + 1));
}

/// Applies a `>` to the sequence under construction, as
/// [`merge_right`] describes.
fn step_right(cur: &mut Vec<Token>) -> (r: Result<(), ParseError>)
    ensures
        match r {
            Ok(()) => merge_right(deep_seq(old(cur)@)) == Ok::<Seq<Node>, ParseError>(
                deep_seq(final(cur)@),
            ),
            Err(e) => merge_right(deep_seq(old(cur)@)) == Err::<Seq<Node>, ParseError>(e),
        },
{
    proof {
        lemma_deep_seq_index(old(cur)@);
        if old(cur)@.len() > 0 {
            lemma_deep_seq_drop_last(old(cur)@);
        }
    }
    match cur.pop() {
        None => {
            cur.push(Token::IncrementDataPointer(1));
            proof {
                lemma_deep_seq_push(old(cur)@, Token::IncrementDataPointer(1));
                assert(merge_right(deep_seq(old(cur)@)) == Ok::<Seq<Node>, ParseError>(deep_seq(cur@)));
            }
        },
        Some(t) => {
            match t {
                Token::IncrementDataPointer(j) => {
                    let nj = match j.checked_add(1) {
                        Some(nj) => nj,
                        None => {
                            return Err(ParseError::DataPointerIncrementOverflow);
                        },
                    };
                    cur.push(Token::IncrementDataPointer(nj));
                    proof {
                        lemma_deep_seq_push(
                            old(cur)@.drop_last(),
                            Token::IncrementDataPointer(nj),
                        );
                        assert(deep_seq(old(cur)@).drop_last().push(
                            Node::IncrementDataPointer(nj),
                        ) =~= deep_seq(old(cur)@).update(
                            old(cur)@.len() - 1,
                            Node::IncrementDataPointer(nj),
                        ));
                    }
                },
                Token::DecrementDataPointer(j) => {
                    if j != 1 {
                        let nj = j.wrapping_sub(1);
                        cur.push(Token::DecrementDataPointer(nj));
                        proof {
                            lemma_deep_seq_push(
                                old(cur)@.drop_last(),
                                Token::DecrementDataPointer(nj),
                            );
                            assert(deep_seq(old(cur)@).drop_last().push(
                                Node::DecrementDataPointer(nj),
                            ) =~= deep_seq(old(cur)@).update(
                                old(cur)@.len() - 1,
                                Node::DecrementDataPointer(nj),
                            ));
                        }
                    }
                },
                t => {
                    cur.push(t);
                    cur.push(Token::IncrementDataPointer(1));
                    proof {
                        lemma_deep_seq_push(old(cur)@.drop_last(), old(cur)@.last());
                        assert(old(cur)@.drop_last().push(old(cur)@.last()) =~= old(cur)@);
                        lemma_deep_seq_push(old(cur)@, Token::IncrementDataPointer(1));
                    }
                },
            }
        },
    }
    Ok(())
}

/// Applies a `<` to the sequence under construction, as
/// [`merge_left`] describes.
fn step_left(cur: &mut Vec<Token>) -> (r: Result<(), ParseError>)
    ensures
        match r {
            Ok(()) => merge_left(deep_seq(old(cur)@)) == Ok::<Seq<Node>, ParseError>(
                deep_seq(final(cur)@),
            ),
            Err(e) => merge_left(deep_seq(old(cur)@)) == Err::<Seq<Node>, ParseError>(e),
        },
{
    proof {
        lemma_deep_seq_index(old(cur)@);
        if old(cur)@.len() > 0 {
            lemma_deep_seq_drop_last(old(cur)@);
        }
    }
    match cur.pop() {
        None => {
            cur.push(Token::DecrementDataPointer(1));
            proof {
                lemma_deep_seq_push(old(cur)@, Token::DecrementDataPointer(1));
            }
        },
        Some(t) => {
            match t {
                Token::DecrementDataPointer(j) => {
                    let nj = match j.checked_add(1) {
                        Some(nj) => nj,
                        None => {
                            return Err(ParseError::DataPointerDecrementOverflow);
                        },
                    };
                    cur.push(Token::DecrementDataPointer(nj));
                    proof {
                        lemma_deep_seq_push(
                            old(cur)@.drop_last(),
                            Token::DecrementDataPointer(nj),
                        );
                        assert(deep_seq(old(cur)@).drop_last().push(
                            Node::DecrementDataPointer(nj),
                        ) =~= deep_seq(old(cur)@).update(
                            old(cur)@.len() - 1,
                            Node::DecrementDataPointer(nj),
                        ));
                    }
                },
                Token::IncrementDataPointer(j) => {
                    if j != 1 {
                        let nj = j.wrapping_sub(1);
                        cur.push(Token::IncrementDataPointer(nj));
                        proof {
                            lemma_deep_seq_push(
                                old(cur)@.drop_last(),
                                Token::IncrementDataPointer(nj),
                            );
                            assert(deep_seq(old(cur)@).drop_last().push(
                                Node::IncrementDataPointer(nj),
                            ) =~= deep_seq(old(cur)@).update(
                                old(cur)@.len() - 1,
                                Node::IncrementDataPointer(nj),
                            ));
                        }
                    }
                },
                t => {
                    cur.push(t);
                    cur.push(Token::DecrementDataPointer(1));
                    proof {
                        lemma_deep_seq_push(old(cur)@.drop_last(), old(cur)@.last());
                        assert(old(cur)@.drop_last().push(old(cur)@.last()) =~= old(cur)@);
                        lemma_deep_seq_push(old(cur)@, Token::DecrementDataPointer(1));
                    }
                },
            }
        },
    }
    Ok(())
}

/// Applies a `+` to the sequence under construction, as
/// [`merge_add`] describes; cell deltas wrap and never fail.
fn step_add(cur: &mut Vec<Token>)
    ensures
        deep_seq(final(cur)@) == merge_add(deep_seq(old(cur)@)),
{
    proof {
        lemma_deep_seq_index(old(cur)@);
        if old(cur)@.len() > 0 {
            lemma_deep_seq_drop_last(old(cur)@);
        }
    }
    match cur.pop() {
        None => {
            cur.push(Token::IncrementByte(1));
            proof {
                lemma_deep_seq_push(old(cur)@, Token::IncrementByte(1));
            }
        },
        Some(t) => {
            match t {
                Token::IncrementByte(j) => {
                    let nj = j.wrapping_add(1);
                    cur.push(Token::IncrementByte(nj));
                    proof {
                        lemma_deep_seq_push(old(cur)@.drop_last(), Token::IncrementByte(nj));
                        assert(deep_seq(old(cur)@).drop_last().push(Node::IncrementByte(nj))
                            =~= deep_seq(old(cur)@).update(
                            old(cur)@.len() - 1,
                            Node::IncrementByte(nj),
                        ));
                    }
                },
                Token::DecrementByte(j) => {
                    if j != 1 {
                        let nj = j.wrapping_sub(1);
                        cur.push(Token::DecrementByte(nj));
                        proof {
                            lemma_deep_seq_push(old(cur)@.drop_last(), Token::DecrementByte(nj));
                            assert(deep_seq(old(cur)@).drop_last().push(Node::DecrementByte(nj))
                                =~= deep_seq(old(cur)@).update(
                                old(cur)@.len() - 1,
                                Node::DecrementByte(nj),
                            ));
                        }
                    }
                },
                t => {
                    cur.push(t);
                    cur.push(Token::IncrementByte(1));
                    proof {
                        lemma_deep_seq_push(old(cur)@.drop_last(), old(cur)@.last());
                        assert(old(cur)@.drop_last().push(old(cur)@.last()) =~= old(cur)@);
                        lemma_deep_seq_push(old(cur)@, Token::IncrementByte(1));
                    }
                },
            }
        },
    }
}

/// Applies a `-` to the sequence under construction, as
/// [`merge_sub`] describes; cell deltas wrap and never fail.
fn step_sub(cur: &mut Vec<Token>)
    ensures
        deep_seq(final(cur)@) == merge_sub(deep_seq(old(cur)@)),
{
    proof {
        lemma_deep_seq_index(old(cur)@);
        if old(cur)@.len() > 0 {
            lemma_deep_seq_drop_last(old(cur)@);
        }
    }
    match cur.pop() {
        None => {
            cur.push(Token::DecrementByte(1));
            proof {
                lemma_deep_seq_push(old(cur)@, Token::DecrementByte(1));
            }
        },
        Some(t) => {
            match t {
                Token::DecrementByte(j) => {
                    let nj = j.wrapping_add(1);
                    cur.push(Token::DecrementByte(nj));
                    proof {
                        lemma_deep_seq_push(old(cur)@.drop_last(), Token::DecrementByte(nj));
                        assert(deep_seq(old(cur)@).drop_last().push(Node::DecrementByte(nj))
                            =~= deep_seq(old(cur)@).update(
                            old(cur)@.len() - 1,
                            Node::DecrementByte(nj),
                        ));
                    }
                },
                Token::IncrementByte(j) => {
                    if j != 1 {
                        let nj = j.wrapping_sub(1);
                        cur.push(Token::IncrementByte(nj));
                        proof {
                            lemma_deep_seq_push(old(cur)@.drop_last(), Token::IncrementByte(nj));
                            assert(deep_seq(old(cur)@).drop_last().push(Node::IncrementByte(nj))
                                =~= deep_seq(old(cur)@).update(
                                old(cur)@.len() - 1,
                                Node::IncrementByte(nj),
                            ));
                        }
                    }
                },
                t => {
                    cur.push(t);
                    cur.push(Token::DecrementByte(1));
                    proof {
                        lemma_deep_seq_push(old(cur)@.drop_last(), old(cur)@.last());
                        assert(old(cur)@.drop_last().push(old(cur)@.last()) =~= old(cur)@);
                        lemma_deep_seq_push(old(cur)@, Token::DecrementByte(1));
                    }
                },
            }
        },
    }
}

/// Parses source text into a sequence of instruction tokens.
///
/// Bytes other than the eight instruction characters are skipped as
/// comments. Adjacent pointer and cell operations are merged into single
/// signed-delta nodes, and an operation that returns a run's net delta
/// to zero removes the node entirely.
///
/// # Errors
///
/// This function will return an error if a run of `>` or `<` exceeds the
/// representable delta range, or if a bracket has no partner.
pub fn parse_code(code: &str) -> (r: Result<Vec<Token>, ParseError>)
    ensures
        match r {
            Ok(toks) => parse_spec(code.spec_bytes()) == Ok::<Seq<Node>, ParseError>(
                deep_seq(toks@),
            ),
            Err(e) => parse_spec(code.spec_bytes()) == Err::<Seq<Node>, ParseError>(e),
        },
{
    let bytes = code.as_bytes();
    let mut stack: Vec<Vec<Token>> = Vec::new();
    let mut cur: Vec<Token> = Vec::new();

    proof {
        assert(stack_model(stack@, cur@) =~= initial_stack());
        assert(bytes@.skip(0) =~= bytes@);
    }

    let mut idx: usize = 0;
    while idx < bytes.len()
        invariant
            bytes@ == code.spec_bytes(),
            idx <= bytes@.len(),
            parse_from(stack_model(stack@, cur@), bytes@.skip(idx as int)) == parse_from(
                initial_stack(),
                bytes@,
            ),
        decreases bytes@.len() - idx,
    {
        let ghost st0 = stack_model(stack@, cur@);
        proof {
            lemma_parse_from_step(st0, bytes@, idx as int);
        }
        let b = bytes[idx];
        if b == 62 {  // '>'
            if let Err(e) = step_right(&mut cur) {
                return Err(e);
            }
            proof {
                assert(stack_model(stack@, cur@) =~= st0.update(
                    st0.len() - 1,
                    deep_seq(cur@),
                ));
            }
        } else if b == 60 {  // '<'
            if let Err(e) = step_left(&mut cur) {
                return Err(e);
            }
            proof {
                assert(stack_model(stack@, cur@) =~= st0.update(
                    st0.len() - 1,
                    deep_seq(cur@),
                ));
            }
        } else if b == 43 {  // '+'
            step_add(&mut cur);
            proof {
                assert(stack_model(stack@, cur@) =~= st0.update(
                    st0.len() - 1,
                    deep_seq(cur@),
                ));
            }
        } else if b == 45 {  // '-'
            step_sub(&mut cur);
            proof {
                assert(stack_model(stack@, cur@) =~= st0.update(
                    st0.len() - 1,
                    deep_seq(cur@),
                ));
            }
        } else if b == 46 {  // '.'
            let ghost c0 = cur@;
            cur.push(Token::WriteByte);
            proof {
                lemma_deep_seq_push(c0, Token::WriteByte);
                assert(stack_model(stack@, cur@) =~= st0.update(
                    st0.len() - 1,
                    st0.last().push(Node::WriteByte),
                ));
            }
        } else if b == 44 {  // ','
            let ghost c0 = cur@;
            cur.push(Token::ReadByte);
            proof {
                lemma_deep_seq_push(c0, Token::ReadByte);
                assert(stack_model(stack@, cur@) =~= st0.update(
                    st0.len() - 1,
                    st0.last().push(Node::ReadByte),
                ));
            }
        } else if b == 91 {  // '['
            stack.push(cur);
            cur = Vec::new();
            proof {
                assert(deep_seq(cur@) =~= Seq::<Node>::empty());
                assert(stack_model(stack@, cur@) =~= st0.push(Seq::empty()));
            }
        } else if b == 93 {  // ']'
            match stack.pop() {
                None => {
                    proof {
                        assert(st0.len() == 1);
                    }
                    return Err(ParseError::UnmatchedSymbol(']'));
                },
                Some(outer) => {
                    let ghost cv = cur;
                    let ghost o0 = outer@;
                    let mut outer = outer;
                    outer.push(Token::Loop(cur));
                    cur = outer;
                    proof {
                        lemma_deep_seq_push(o0, Token::Loop(cv));
                        assert(st0.drop_last() =~= stack_model(stack@, o0));
                        assert(stack_model(stack@, cur@) =~= st0.drop_last().update(
                            st0.drop_last().len() - 1,
                            st0.drop_last().last().push(Node::Loop(st0.last())),
                        ));
                    }
                },
            }
        }
        idx = idx + 1;
    }
    proof {
        assert(bytes@.skip(idx as int) =~= Seq::<u8>::empty());
    }
    if !stack.is_empty() {
        return Err(ParseError::UnmatchedSymbol('['));
    }
    proof {
        assert(stack_model(stack@, cur@).len() == 1);
        assert(stack_model(stack@, cur@)[0] == deep_seq(cur@));
    }
    Ok(cur)
}

/// Whether every byte of `s` is a pointer instruction, `>` or `<`.
pub open spec fn all_pointer_bytes(s: Seq<u8>) -> bool {
    forall|i: int| 0 <= i < s.len() ==> (s[i] == 62 || s[i] == 60)
}

/// The net pointer displacement of a byte string: `>` counts one right,
/// `<` one left, anything else nothing.
pub open spec fn ptr_net(s: Seq<u8>) -> int
    decreases s.len(),
{
    if s.len() == 0 {
        0
    } else {
        (if s[0] == 62 {
            1int
        } else if s[0] == 60 {
            -1int
        } else {
            0int
        }) + ptr_net(s.drop_first())
    }
}

/// The single merged node a net pointer displacement of `k` leaves: one
/// node in the direction of `k`, or nothing at all when `k` is zero.
pub open spec fn ptr_run(k: int) -> Seq<Node>
    recommends
        -(usize::MAX as int) <= k <= usize::MAX as int,
{
    if k > 0 {
        seq![Node::IncrementDataPointer(k as usize)]
    } else if k < 0 {
        seq![Node::DecrementDataPointer((-k) as usize)]
    } else {
        Seq::empty()
    }
}

/// The net displacement of a string is bounded by its length.
pub proof fn lemma_ptr_net_bound(s: Seq<u8>)
    ensures
        -s.len() <= ptr_net(s) <= s.len(),
    decreases s.len(),
{
    if s.len() > 0 {
        lemma_ptr_net_bound(s.drop_first());
    }
}

/// Scanning a pointer-only string keeps the current sequence equal to
/// the single merged run of the displacement so far: merging is exact
/// at every step.
pub proof fn lemma_ptr_run_scan(s: Seq<u8>, k: int)
    requires
        all_pointer_bytes(s),
        forall|j: int|
            0 <= j <= s.len() ==> -(usize::MAX as int) <= k + ptr_net(#[trigger] s.take(j))
                <= usize::MAX as int,
    ensures
        parse_from(seq![ptr_run(k)], s) == Ok::<Seq<Seq<Node>>, ParseError>(
            seq![ptr_run(k + ptr_net(s))],
        ),
    decreases s.len(),
{
    if s.len() > 0 {
        let b = s[0];
        assert(s[0] == 62 || s[0] == 60);
        assert(s.take(0) =~= Seq::<u8>::empty());
        assert(ptr_net(s.take(0)) == 0);
        let d: int = if b == 62 {
            1
        } else {
            -1
        };
        let k2 = k + d;
        assert(s.take(1).drop_first() =~= Seq::<u8>::empty());
        assert(s.take(1)[0] == b);
        assert(s.take(1).len() == 1);
        assert(ptr_net(s.take(1).drop_first()) == 0);
        assert(ptr_net(s.take(1)) == d);
        assert(-(usize::MAX as int) <= k2 <= usize::MAX as int);
        let st2 = match parse_step(seq![ptr_run(k)], b) {
            Ok(st2) => st2,
            Err(e) => Seq::empty(),
        };
        if k > 0 {
            if b == 62 {
                assert(ptr_run(k).update(0, Node::IncrementDataPointer(k2 as usize)) =~= ptr_run(
                    k2,
                ));
            } else {
                if k == 1 {
                    assert(ptr_run(k).drop_last() =~= ptr_run(0));
                } else {
                    assert(ptr_run(k).update(
                        0,
                        Node::IncrementDataPointer(delta_down(k as usize)),
                    ) =~= ptr_run(k2));
                }
            }
        } else if k < 0 {
            if b == 60 {
                assert(ptr_run(k).update(0, Node::DecrementDataPointer((-k2) as usize)) =~= ptr_run(
                    k2,
                ));
            } else {
                if k == -1 {
                    assert(ptr_run(k).drop_last() =~= ptr_run(0));
                } else {
                    assert(ptr_run(k).update(
                        0,
                        Node::DecrementDataPointer(delta_down((-k) as usize)),
                    ) =~= ptr_run(k2));
                }
            }
        } else {
            assert(ptr_run(0).push(Node::IncrementDataPointer(1)) =~= ptr_run(1));
            assert(ptr_run(0).push(Node::DecrementDataPointer(1)) =~= ptr_run(-1));
        }
        assert(st2 =~= seq![ptr_run(k2)]);
        assert forall|j: int| 0 <= j <= s.drop_first().len() implies -(usize::MAX as int) <= k2
            + ptr_net(#[trigger] s.drop_first().take(j)) <= usize::MAX as int by {
            assert(s.take(j + 1)[0] == b);
            assert(s.take(j + 1).drop_first() =~= s.drop_first().take(j));
            assert(ptr_net(s.take(j + 1)) == d + ptr_net(s.drop_first().take(j)));
            assert(-(usize::MAX as int) <= k + ptr_net(s.take(j + 1)) <= usize::MAX as int);
        }
        lemma_ptr_run_scan(s.drop_first(), k2);
        assert(ptr_net(s) == d + ptr_net(s.drop_first()));
    } else {
        assert(ptr_run(k + ptr_net(s)) =~= ptr_run(k));
    }
}

/// Run-length cancellation is exact: a program consisting only of `>`
/// and `<` whose net displacement is zero parses to the empty sequence.
pub proof fn lemma_pointer_cancellation(s: Seq<u8>)
    requires
        all_pointer_bytes(s),
        ptr_net(s) == 0,
        s.len() <= usize::MAX,
    ensures
        parse_spec(s) == Ok::<Seq<Node>, ParseError>(Seq::empty()),
{
    assert forall|j: int| 0 <= j <= s.len() implies -(usize::MAX as int) <= 0 + ptr_net(
        #[trigger] s.take(j),
    ) <= usize::MAX as int by {
        lemma_ptr_net_bound(s.take(j));
    }
    lemma_ptr_run_scan(s, 0);
    assert(seq![ptr_run(0)] =~= initial_stack());
    assert(seq![ptr_run(0 + ptr_net(s))] =~= initial_stack());
}

/// Whether every byte of `s` is a cell instruction, `+` or `-`.
pub open spec fn all_cell_bytes(s: Seq<u8>) -> bool {
    forall|i: int| 0 <= i < s.len() ==> (s[i] == 43 || s[i] == 45)
}

/// The net cell delta of a byte string: `+` counts one up, `-` one
/// down, anything else nothing.
pub open spec fn cell_net(s: Seq<u8>) -> int
    decreases s.len(),
{
    if s.len() == 0 {
        0
    } else {
        (if s[0] == 43 {
            1int
        } else if s[0] == 45 {
            -1int
        } else {
            0int
        }) + cell_net(s.drop_first())
    }
}

/// The single merged node a net cell delta of `k` leaves, for `k`
/// between -255 and 255: one node in the direction of `k`, or nothing
/// at all when `k` is zero.
pub open spec fn cell_run(k: int) -> Seq<Node>
    recommends
        -255 <= k <= 255,
{
    if k > 0 {
        seq![Node::IncrementByte(k as u8)]
    } else if k < 0 {
        seq![Node::DecrementByte((-k) as u8)]
    } else {
        Seq::empty()
    }
}

/// Scanning a cell-only string whose running delta stays between -255
/// and 255 keeps the current sequence equal to the single merged run of
/// the delta so far: merging is exact at every step.
pub proof fn lemma_cell_run_scan(s: Seq<u8>, k: int)
    requires
        all_cell_bytes(s),
        forall|j: int| 0 <= j <= s.len() ==> -255 <= k + cell_net(#[trigger] s.take(j)) <= 255,
    ensures
        parse_from(seq![cell_run(k)], s) == Ok::<Seq<Seq<Node>>, ParseError>(
            seq![cell_run(k + cell_net(s))],
        ),
    decreases s.len(),
{
    if s.len() > 0 {
        let b = s[0];
        assert(s[0] == 43 || s[0] == 45);
        assert(s.take(0) =~= Seq::<u8>::empty());
        assert(cell_net(s.take(0)) == 0);
        let d: int = if b == 43 {
            1
        } else {
            -1
        };
        let k2 = k + d;
        assert(s.take(1).drop_first() =~= Seq::<u8>::empty());
        assert(s.take(1)[0] == b);
        assert(s.take(1).len() == 1);
        assert(cell_net(s.take(1).drop_first()) == 0);
        assert(cell_net(s.take(1)) == d);
        assert(-255 <= k2 <= 255);
        let st2 = match parse_step(seq![cell_run(k)], b) {
            Ok(st2) => st2,
            Err(e) => Seq::empty(),
        };
        if k > 0 {
            if b == 43 {
                assert(byte_add((k as u8), 1) == k2 as u8);
                assert(cell_run(k).update(0, Node::IncrementByte(k2 as u8)) =~= cell_run(k2));
            } else {
                if k == 1 {
                    assert(cell_run(k).drop_last() =~= cell_run(0));
                } else {
                    assert(byte_sub((k as u8), 1) == k2 as u8);
                    assert(cell_run(k).update(0, Node::IncrementByte(byte_sub((k as u8), 1)))
                        =~= cell_run(k2));
                }
            }
        } else if k < 0 {
            if b == 45 {
                assert(byte_add(((-k) as u8), 1) == (-k2) as u8);
                assert(cell_run(k).update(0, Node::DecrementByte((-k2) as u8)) =~= cell_run(k2));
            } else {
                if k == -1 {
                    assert(cell_run(k).drop_last() =~= cell_run(0));
                } else {
                    assert(byte_sub(((-k) as u8), 1) == (-k2) as u8);
                    assert(cell_run(k).update(0, Node::DecrementByte(byte_sub(((-k) as u8), 1)))
                        =~= cell_run(k2));
                }
            }
        } else {
            assert(cell_run(0).push(Node::IncrementByte(1)) =~= cell_run(1));
            assert(cell_run(0).push(Node::DecrementByte(1)) =~= cell_run(-1));
        }
        assert(st2 =~= seq![cell_run(k2)]);
        assert forall|j: int| 0 <= j <= s.drop_first().len() implies -255 <= k2 + cell_net(
            #[trigger] s.drop_first().take(j),
        ) <= 255 by {
            assert(s.take(j + 1)[0] == b);
            assert(s.take(j + 1).drop_first() =~= s.drop_first().take(j));
            assert(cell_net(s.take(j + 1)) == d + cell_net(s.drop_first().take(j)));
            assert(-255 <= k + cell_net(s.take(j + 1)) <= 255);
        }
        lemma_cell_run_scan(s.drop_first(), k2);
        assert(cell_net(s) == d + cell_net(s.drop_first()));
    } else {
        assert(cell_run(k + cell_net(s)) =~= cell_run(k));
    }
}

/// Run-length cancellation is exact for cell operations too: a program
/// of only `+` and `-` whose running delta never leaves the byte range
/// and whose net delta is zero parses to the empty sequence. The range
/// condition is needed: 256 consecutive `+` wrap a single merged node
/// to a zero delta rather than removing it.
pub proof fn lemma_cell_cancellation(s: Seq<u8>)
    requires
        all_cell_bytes(s),
        cell_net(s) == 0,
        forall|j: int| 0 <= j <= s.len() ==> -255 <= cell_net(#[trigger] s.take(j)) <= 255,
    ensures
        parse_spec(s) == Ok::<Seq<Node>, ParseError>(Seq::empty()),
{
    lemma_cell_run_scan(s, 0);
    assert(seq![cell_run(0)] =~= initial_stack());
    assert(seq![cell_run(0 + cell_net(s))] =~= initial_stack());
}

/// Parsing walks the text left to right: splitting it anywhere splits
/// the walk, the second part starting from the state the first one left.
pub proof fn lemma_parse_from_append(st: Seq<Seq<Node>>, a: Seq<u8>, b: Seq<u8>)
    ensures
        parse_from(st, a + b) == match parse_from(st, a) {
            Ok(st2) => parse_from(st2, b),
            Err(e) => Err(e),
        },
    decreases a.len(),
{
    if a.len() == 0 {
        assert(a + b =~= b);
    } else {
        assert((a + b)[0] == a[0]);
        assert((a + b).len() > 0);
        assert((a + b).drop_first() =~= a.drop_first() + b);
        match parse_step(st, a[0]) {
            Ok(st2) => {
                lemma_parse_from_append(st2, a.drop_first(), b);
            },
            Err(e) => {},
        }
    }
}

/// A prefix that parses to the empty sequence is invisible to the rest
/// of the program: parsing the whole text equals parsing what follows.
/// Balanced runs can therefore be strung together, and the whole still
/// parses to nothing.
pub proof fn lemma_empty_prefix(a: Seq<u8>, b: Seq<u8>)
    requires
        parse_spec(a) == Ok::<Seq<Node>, ParseError>(Seq::empty()),
    ensures
        parse_spec(a + b) == parse_spec(b),
{
    lemma_parse_from_append(initial_stack(), a, b);
    match parse_from(initial_stack(), a) {
        Ok(st) => {
            assert(st.len() == 1);
            assert(st[0] == Seq::<Node>::empty());
            assert(st =~= initial_stack());
        },
        Err(e) => {
            assert(false);
        },
    }
}

/// A balanced run: a string over a single axis whose net delta is zero.
/// For pointer runs nothing more is asked (a real text is never longer
/// than the address space); for cell runs the running delta must stay
/// within the byte range, since a run that wraps a merged node to a
/// zero delta leaves the node in place instead of removing it.
pub open spec fn balanced_run(b: Seq<u8>) -> bool {
    ||| (all_pointer_bytes(b) && ptr_net(b) == 0 && b.len() <= usize::MAX)
    ||| (all_cell_bytes(b) && cell_net(b) == 0 && forall|j: int|
        0 <= j <= b.len() ==> -255 <= cell_net(#[trigger] b.take(j)) <= 255)
}

/// Run-length cancellation is exact: a program that consists only of
/// balanced `>`/`<` and `+`/`-` runs parses to the empty sequence.
pub proof fn lemma_balanced_runs_cancel(blocks: Seq<Seq<u8>>)
    requires
        forall|i: int| 0 <= i < blocks.len() ==> balanced_run(#[trigger] blocks[i]),
    ensures
        parse_spec(blocks.flatten()) == Ok::<Seq<Node>, ParseError>(Seq::empty()),
    decreases blocks.len(),
{
    if blocks.len() == 0 {
        assert(blocks.flatten() =~= Seq::<u8>::empty());
    } else {
        let head = blocks[0];
        assert(balanced_run(head));
        if all_pointer_bytes(head) && ptr_net(head) == 0 && head.len() <= usize::MAX {
            lemma_pointer_cancellation(head);
        } else {
            lemma_cell_cancellation(head);
        }
        assert forall|i: int| 0 <= i < blocks.drop_first().len() implies balanced_run(
            #[trigger] blocks.drop_first()[i],
        ) by {
            assert(blocks.drop_first()[i] == blocks[i + 1]);
        }
        lemma_balanced_runs_cancel(blocks.drop_first());
        lemma_empty_prefix(head, blocks.drop_first().flatten());
        assert(blocks.flatten() == head + blocks.drop_first().flatten());
    }
}

} // verus!
