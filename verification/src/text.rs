//! The text of a table row: fixed-width decimal columns, as ASCII bytes.

use crate::state::{Row, E};
use vstd::prelude::*;

verus! {

/// The decimal digits of `n`, without leading zeros.
pub open spec fn decimal(n: nat) -> Seq<u8>
    decreases n,
{
    if n < 10 {
        seq![(48 + n) as u8]
    } else {
        decimal(n / 10).push((48 + n % 10) as u8)
    }
}

/// The decimal digits of `n`, with spaces in front up to `width` bytes; a
/// longer number is not cut.
pub open spec fn padded(n: nat, width: nat) -> Seq<u8> {
    let digits = decimal(n);
    if digits.len() < width {
        Seq::new((width - digits.len()) as nat, |i: int| 32u8) + digits
    } else {
        digits
    }
}

/// The line for a row: the two weights in 4 columns each, the four successor
/// indices in 3 each, the two probabilities in 10 each with a `u` behind, all
/// in brackets and separated by commas, then a comment with the index of the
/// state in 3 columns and its counts in parentheses.
pub open spec fn line_spec(row: Row, index: nat, n0: nat, n1: nat) -> Seq<u8> {
    let s = seq![32u8, 32u8, 32u8, 91u8];
    let s = (s + padded(row.get0 as nat, 4)).push(44u8);
    let s = (s + padded(row.get1 as nat, 4)).push(44u8);
    let s = (s + padded(row.s00 as nat, 3)).push(44u8);
    let s = (s + padded(row.s01 as nat, 3)).push(44u8);
    let s = (s + padded(row.s10 as nat, 3)).push(44u8);
    let s = (s + padded(row.s11 as nat, 3)).push(44u8);
    let s = (s + padded(row.p01 as nat, 10)).push(117u8).push(44u8);
    let s = (s + padded(row.p11 as nat, 10)).push(117u8).push(93u8).push(44u8);
    let s = s.push(32u8).push(47u8).push(47u8).push(32u8);
    let s = (s + padded(index, 3)).push(32u8).push(40u8);
    let s = (s + decimal(n0)).push(44u8);
    (s + decimal(n1)).push(41u8)
}

/// A number has at least one digit and no more digits than half its value
/// plus one.
pub proof fn lemma_decimal_len(n: nat)
    ensures
        1 <= decimal(n).len() <= n / 2 + 1,
    decreases n,
{
    if n >= 10 {
        lemma_decimal_len(n / 10);
    }
}

/// The number of decimal digits of `n`.
pub fn decimal_len(n: u32) -> (r: usize)
    ensures
        r == decimal(n as nat).len(),
    decreases n,
{
    proof {
        lemma_decimal_len(n as nat);
    }
    if n < 10 {
        1
    } else {
        proof {
            lemma_decimal_len((n / 10) as nat);
        }
        decimal_len(n / 10) + 1
    }
}

/// Appends the decimal digits of `n` to `buf`.
pub fn push_decimal(buf: &mut Vec<u8>, n: u32)
    ensures
        final(buf)@ == old(buf)@ + decimal(n as nat),
    decreases n,
{
    if n < 10 {
        buf.push(48 + n as u8);
        assert(buf@ =~= old(buf)@ + decimal(n as nat));
    } else {
        push_decimal(buf, n / 10);
        buf.push(48 + (n % 10) as u8);
        assert(buf@ =~= old(buf)@ + decimal(n as nat));
    }
}

/// Appends the decimal digits of `n` to `buf`, with spaces in front up to
/// `width` bytes.
pub fn push_padded(buf: &mut Vec<u8>, n: u32, width: usize)
    ensures
        final(buf)@ == old(buf)@ + padded(n as nat, width as nat),
{
    let len: usize = decimal_len(n);
    let mut i: usize = len;
    while i < width
        invariant
            len <= i,
            len < width ==> i <= width,
            len >= width ==> i == len,
            buf@ == old(buf)@ + Seq::new((i - len) as nat, |j: int| 32u8),
        decreases width - i,
    {
        buf.push(32);
        i += 1;
        assert(buf@ =~= old(buf)@ + Seq::new((i - len) as nat, |j: int| 32u8));
    }
    let ghost spaces = Seq::new((i - len) as nat, |j: int| 32u8);
    let ghost digits = decimal(n as nat);
    push_decimal(buf, n);
    proof {
        assert(buf@ == (old(buf)@ + spaces) + digits);
        if len < width {
            assert(padded(n as nat, width as nat) == spaces + digits);
            assert((old(buf)@ + spaces) + digits =~= old(buf)@ + (spaces + digits));
        } else {
            assert(old(buf)@ + spaces =~= old(buf)@);
        }
    }
}

/// The line of the state `e`, which stands at `index` in the table.
pub fn render(e: &E, index: u32) -> (line: Vec<u8>)
    requires
        e.wf(),
    ensures
        line@ == line_spec(e.row_spec(), index as nat, e.n0 as nat, e.n1 as nat),
{
    let row = e.encode();
    let mut s: Vec<u8> = Vec::new();
    s.push(32);
    s.push(32);
    s.push(32);
    s.push(91);
    assert(s@ =~= seq![32u8, 32u8, 32u8, 91u8]);
    push_padded(&mut s, row.get0, 4);
    s.push(44);
    push_padded(&mut s, row.get1, 4);
    s.push(44);
    push_padded(&mut s, row.s00, 3);
    s.push(44);
    push_padded(&mut s, row.s01, 3);
    s.push(44);
    push_padded(&mut s, row.s10, 3);
    s.push(44);
    push_padded(&mut s, row.s11, 3);
    s.push(44);
    push_padded(&mut s, row.p01, 10);
    s.push(117);
    s.push(44);
    push_padded(&mut s, row.p11, 10);
    s.push(117);
    s.push(93);
    s.push(44);
    s.push(32);
    s.push(47);
    s.push(47);
    s.push(32);
    push_padded(&mut s, index, 3);
    s.push(32);
    s.push(40);
    push_decimal(&mut s, e.n0);
    s.push(44);
    push_decimal(&mut s, e.n1);
    s.push(41);
    s
}

} // verus!
