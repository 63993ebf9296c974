//! Scanlines: the runs of coverage of one row of pixels

use vstd::prelude::*;
use std::collections::HashMap;
use crate::fits_i64;

verus! {

broadcast use vstd::std_specs::hash::group_hash_axioms;

/// A run of `len` pixels from `x`, with one coverage each
#[derive(Debug, Default)]
pub struct Span {
    pub x: i64,
    pub len: i64,
    pub covers: Vec<u64>,
}

/// One row of spans
#[derive(Debug, Default)]
pub struct ScanlineU8 {
    pub last_x: i64,
    pub min_x: i64,
    pub spans: Vec<Span>,
    pub covers: HashMap<i64, u64>,
    pub y: i64,
}

/// The last position before any span: no cell continues a span there
pub const LAST_X: i64 = 0x7FFF_FFF0;

/// A span as plain values: its start, its length and its coverages
pub open spec fn span_view(s: Span) -> (int, int, Seq<u64>) {
    (s.x as int, s.len as int, s.covers@)
}

impl ScanlineU8 {
    /// The spans as plain values
    pub open spec fn spans_view(&self) -> Seq<(int, int, Seq<u64>)> {
        self.spans@.map_values(|s: Span| span_view(s))
    }

    pub fn new() -> (s: Self)
        ensures
            s.spans@.len() == 0,
            s.covers@ == Map::<i64, u64>::empty(),
            s.y == 0,
            s.last_x == LAST_X,
            s.min_x == 0,
    {
        Self { last_x: LAST_X, min_x: 0, y: 0, spans: Vec::new(), covers: HashMap::new() }
    }

    /// Remove all spans
    pub fn reset_spans(&mut self)
        ensures
            final(self).spans@.len() == 0,
            final(self).covers@ == Map::<i64, u64>::empty(),
            final(self).y == old(self).y,
            final(self).last_x == LAST_X,
            final(self).min_x == old(self).min_x,
    {
        self.last_x = LAST_X;
        self.spans.clear();
        self.covers.clear();
    }

    /// Remove all spans and take positions from `min_x` on
    pub fn reset(&mut self, min_x: i64, _max_x: i64)
        ensures
            final(self).spans@.len() == 0,
            final(self).covers@ == Map::<i64, u64>::empty(),
            final(self).y == old(self).y,
            final(self).last_x == LAST_X,
            final(self).min_x == min_x,
    {
        self.last_x = LAST_X;
        self.min_x = min_x;
        self.spans = Vec::new();
        self.covers = HashMap::new();
    }

    /// Set the row
    pub fn finalize(&mut self, y: i64)
        ensures
            final(self).y == y,
            final(self).spans_view() == old(self).spans_view(),
            final(self).covers@ == old(self).covers@,
            final(self).last_x == old(self).last_x,
            final(self).min_x == old(self).min_x,
    {
        self.y = y;
    }

    pub fn num_spans(&self) -> (r: usize)
        ensures
            r == self.spans@.len(),
    {
        self.spans.len()
    }

    /// Add `len` pixels of coverage `cover` from `x`: they lengthen the last
    /// span where they continue it, else start a new span
    pub fn add_span(&mut self, x: i64, len: i64, cover: u64)
        requires
            0 <= len <= usize::MAX,
            old(self).last_x < i64::MAX,
            fits_i64(x - old(self).min_x),
            fits_i64(x - old(self).min_x + len),
            fits_i64(x - old(self).min_x + len - 1),
            x - old(self).min_x == old(self).last_x + 1 ==> {
                &&& old(self).spans@.len() > 0
                &&& fits_i64(old(self).spans@.last().len + len)
            },
        ensures
            ({
                let rx = x - old(self).min_x;
                let n = old(self).spans@.len();
                &&& final(self).covers@ == old(self).covers@.insert(rx as i64, cover)
                &&& final(self).last_x == rx + len - 1
                &&& final(self).min_x == old(self).min_x
                &&& final(self).y == old(self).y
                &&& if rx == old(self).last_x + 1 {
                    let last = old(self).spans_view()[n - 1];
                    final(self).spans_view() == old(self).spans_view().update(n - 1,
                        (last.0, last.1 + len, last.2 + Seq::new(len as nat, |i: int| cover)))
                } else {
                    final(self).spans_view() == old(self).spans_view().push(
                        (x as int, len as int, Seq::new(len as nat, |i: int| cover)))
                }
            }),
    {
        let x = x - self.min_x;
        let new_last: i64 = x + len - 1;
        self.covers.insert(x, cover);
        let ghost old_view = self.spans_view();
        if x == self.last_x + 1 {
            let mut cur = self.spans.pop().unwrap();
            let ghost rest = self.spans@;
            let ghost cur0 = cur;
            cur.len += len;
            let mut i: i64 = 0;
            let ghost c0 = cur.covers@;
            while i < len
                invariant
                    0 <= i <= len,
                    cur.covers@ == c0 + Seq::new(i as nat, |j: int| cover),
                    c0 == cur0.covers@,
                    cur.x == cur0.x,
                    cur.len == cur0.len + len,
                    self.spans@ == rest,
                decreases len - i,
            {
                cur.covers.push(cover);
                i += 1;
                assert(cur.covers@ =~= c0 + Seq::new(i as nat, |j: int| cover));
            }
            self.spans.push(cur);
            assert(self.spans_view() =~= old_view.update(old_view.len() - 1,
                (old_view[old_view.len() - 1].0, old_view[old_view.len() - 1].1 + len,
                 old_view[old_view.len() - 1].2 + Seq::new(len as nat, |i: int| cover))));
        } else {
            let covers = vec![cover; len as usize];
            assert(covers@ =~= Seq::new(len as nat, |i: int| cover));
            let span = Span { x: x + self.min_x, len, covers };
            self.spans.push(span);
            assert(self.spans_view() =~= old_view.push(
                ((x + self.min_x) as int, len as int, Seq::new(len as nat, |i: int| cover))));
        }
        self.last_x = new_last;
    }

    /// Add one pixel of coverage `cover` at `x`: it lengthens the last span
    /// where it continues it, else starts a new span
    pub fn add_cell(&mut self, x: i64, cover: u64)
        requires
            old(self).last_x < i64::MAX,
            fits_i64(x - old(self).min_x),
            x - old(self).min_x == old(self).last_x + 1 ==> {
                &&& old(self).spans@.len() > 0
                &&& old(self).spans@.last().len < i64::MAX
            },
        ensures
            ({
                let rx = x - old(self).min_x;
                let n = old(self).spans@.len();
                &&& final(self).covers@ == old(self).covers@.insert(rx as i64, cover)
                &&& final(self).last_x == rx
                &&& final(self).min_x == old(self).min_x
                &&& final(self).y == old(self).y
                &&& if rx == old(self).last_x + 1 {
                    let last = old(self).spans_view()[n - 1];
                    final(self).spans_view() == old(self).spans_view().update(n - 1,
                        (last.0, last.1 + 1, last.2.push(cover)))
                } else {
                    final(self).spans_view() == old(self).spans_view().push(
                        (x as int, 1int, seq![cover]))
                }
            }),
    {
        let x = x - self.min_x;
        self.covers.insert(x, cover);
        let ghost old_view = self.spans_view();
        if x == self.last_x + 1 {
            let mut cur = self.spans.pop().unwrap();
            cur.len += 1;
            cur.covers.push(cover);
            self.spans.push(cur);
            assert(self.spans_view() =~= old_view.update(old_view.len() - 1,
                (old_view[old_view.len() - 1].0, old_view[old_view.len() - 1].1 + 1,
                 old_view[old_view.len() - 1].2.push(cover))));
        } else {
            let covers = vec![cover];
            assert(covers@ =~= seq![cover]);
            let span = Span { x: x + self.min_x, len: 1, covers };
            self.spans.push(span);
            assert(self.spans_view() =~= old_view.push(((x + self.min_x) as int, 1int, seq![cover])));
        }
        self.last_x = x;
    }
}

} // verus!
