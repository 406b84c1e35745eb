//! Source text to instructions: one instruction per recognised character,
//! every other character a comment.
use vstd::prelude::*;

use crate::op::{Jump, Op};

verus! {

/// The instruction that a character stands for, if any.
pub open spec fn char_op(c: char) -> Option<Op> {
    if c == '+' {
        Some(Op::Increment(1))
    } else if c == '-' {
        Some(Op::Decrement(1))
    } else if c == '>' {
        Some(Op::MoveR(1))
    } else if c == '<' {
        Some(Op::MoveL(1))
    } else if c == '[' {
        Some(Op::Jump(Jump::JumpR(0)))
    } else if c == ']' {
        Some(Op::Jump(Jump::JumpL(0)))
    } else if c == ',' {
        Some(Op::Read)
    } else if c == '.' {
        Some(Op::Get)
    } else if c == '#' {
        Some(Op::Debug)
    } else {
        None
    }
}

/// The instructions of a source text, in order.
pub open spec fn parse_spec(s: Seq<char>) -> Seq<Op>
    decreases s.len(),
{
    if s.len() == 0 {
        Seq::empty()
    } else {
        let front = parse_spec(s.drop_last());
        match char_op(s.last()) {
            Some(op) => front.push(op),
            None => front,
        }
    }
}

pub fn op_of_char(c: char) -> (r: Option<Op>)
    ensures
        r == char_op(c),
{
    match c {
        '+' => Some(Op::Increment(1)),
        '-' => Some(Op::Decrement(1)),
        '>' => Some(Op::MoveR(1)),
        '<' => Some(Op::MoveL(1)),
        // Jump targets start as 0; jump resolution fills them in.
        '[' => Some(Op::Jump(Jump::JumpR(0))),
        ']' => Some(Op::Jump(Jump::JumpL(0))),
        ',' => Some(Op::Read),
        '.' => Some(Op::Get),
        '#' => Some(Op::Debug),
        _ => None,
    }
}

/// Relies on `str::chars`: the characters of the string, in order.
#[verifier::external_body]
fn chars_of(s: &str) -> (r: Vec<char>)
    ensures
        r@ == s@,
{
    s.chars().collect()
}

/// Parses source text; characters outside `+-><[],.#` are skipped.
pub fn parse(src: &str) -> (r: Vec<Op>)
    ensures
        r@ == parse_spec(src@),
{
    let chars = chars_of(src);
    let mut ops: Vec<Op> = Vec::new();
    let mut i: usize = 0;
    while i < chars.len()
        invariant
            i <= chars@.len(),
            chars@ == src@,
            ops@ == parse_spec(src@.subrange(0, i as int)),
        decreases chars@.len() - i,
    {
        assert(src@.subrange(0, i + 1).drop_last() == src@.subrange(0, i as int));
        if let Some(op) = op_of_char(chars[i]) {
            ops.push(op);
        }
        i += 1;
    }
    assert(src@.subrange(0, i as int) == src@);
    ops
}

/// Parsing distributes over concatenation of source texts.
pub proof fn lemma_parse_concat(a: Seq<char>, b: Seq<char>)
    ensures
        parse_spec(a + b) == parse_spec(a) + parse_spec(b),
    decreases b.len(),
{
    if b.len() == 0 {
        assert(a + b == a);
        assert(parse_spec(b) == Seq::<Op>::empty());
        assert(parse_spec(a) + parse_spec(b) == parse_spec(a));
    } else {
        lemma_parse_concat(a, b.drop_last());
        assert((a + b).drop_last() == a + b.drop_last());
        assert((a + b).last() == b.last());
        match char_op(b.last()) {
            Some(op) => {
                assert(parse_spec(a) + parse_spec(b.drop_last()).push(op) == (parse_spec(a)
                    + parse_spec(b.drop_last())).push(op));
            },
            None => {},
        }
    }
}

/// A character outside the instruction set changes nothing, wherever it stands.
pub proof fn lemma_parse_skips_comment(a: Seq<char>, c: char, b: Seq<char>)
    requires
        char_op(c) is None,
    ensures
        parse_spec(a + seq![c] + b) == parse_spec(a + b),
{
    lemma_parse_concat(a + seq![c], b);
    lemma_parse_concat(a, seq![c]);
    lemma_parse_concat(a, b);
    assert(seq![c].drop_last() == Seq::<char>::empty());
    assert(parse_spec(Seq::<char>::empty()) == Seq::<Op>::empty());
    assert(parse_spec(a) + Seq::<Op>::empty() == parse_spec(a));
}

pub proof fn lemma_parse_has_no_empty(s: Seq<char>)
    ensures
        !parse_spec(s).contains(Op::Empty),
    decreases s.len(),
{
    if s.len() > 0 {
        lemma_parse_has_no_empty(s.drop_last());
        let front = parse_spec(s.drop_last());
        if let Some(op) = char_op(s.last()) {
            assert forall|k: int| 0 <= k < front.push(op).len() implies front.push(op)[k]
                != Op::Empty by {
                if k < front.len() {
                    assert(front[k] != Op::Empty);
                }
            }
        }
    }
}

} // verus!
