//! Handing out neighbour relations in batches, so that a caller can spread the
//! insertion of a planet's relations over several frames.
use vstd::prelude::*;

verus! {

/// Both directions of each pair, in order: `(a, b)` then `(b, a)`.
pub open spec fn both_ways(pairs: Seq<(u32, u32)>) -> Seq<(u32, u32)> {
    Seq::new(2 * pairs.len(), |i: int| if i % 2 == 0 { pairs[i / 2] } else { (pairs[i / 2].1, pairs[i / 2].0) })
}

/// Where the loading of a planet's relations stands: whether a planet is selected,
/// and, once a pass over its relations has begun, how far that pass got.
pub struct LoadState {
    pairs: Vec<(u32, u32)>,
    cursor: Option<usize>,
    active: bool,
}

impl LoadState {
    /// The relations of the selected planet.
    pub closed spec fn pairs(&self) -> Seq<(u32, u32)> {
        self.pairs@
    }

    /// How many relations the pass under way has handed out; `None` when no pass
    /// has begun, so that the next one starts from the first relation.
    pub closed spec fn cursor(&self) -> Option<int> {
        match self.cursor {
            Some(c) => Some(c as int),
            None => None,
        }
    }

    /// Whether a planet is selected.
    pub closed spec fn active(&self) -> bool {
        self.active
    }

    /// Where the next batch starts.
    pub open spec fn start(&self) -> int {
        match self.cursor() {
            Some(c) => c,
            None => 0,
        }
    }

    pub open spec fn wf(&self) -> bool {
        0 <= self.start() <= self.pairs().len()
    }

    /// Selects a planet whose relations are `pairs`; no pass has begun.
    pub fn new(pairs: Vec<(u32, u32)>) -> (r: Self)
        ensures
            r.wf(),
            r.pairs() == pairs@,
            r.cursor() is None,
            r.active(),
    {
        LoadState { pairs, cursor: None, active: true }
    }

    /// No planet selected.
    pub fn idle() -> (r: Self)
        ensures
            r.wf(),
            r.pairs().len() == 0,
            r.cursor() is None,
            !r.active(),
    {
        LoadState { pairs: Vec::new(), cursor: None, active: false }
    }

    pub fn is_active(&self) -> (r: bool)
        ensures
            r == self.active(),
    {
        self.active
    }

    /// Hands out the relations of the next `per_iter` pairs (fewer at the end), both
    /// directions of each. When a batch comes out short, the planet is deselected
    /// and the pass is dropped. Without a selected planet nothing changes.
    pub fn loader(&mut self, per_iter: usize) -> (r: Vec<(u32, u32)>)
        requires
            old(self).wf(),
        ensures
            final(self).wf(),
            final(self).pairs() == old(self).pairs(),
            !old(self).active() ==> r@.len() == 0 && final(self).cursor() == old(self).cursor()
                && !final(self).active(),
            old(self).active() ==> {
                let s = old(self).start();
                let end = if s + per_iter <= old(self).pairs().len() {
                    s + per_iter
                } else {
                    old(self).pairs().len() as int
                };
                &&& r@ == both_ways(old(self).pairs().subrange(s, end))
                &&& final(self).active() == (end - s == per_iter)
                &&& final(self).cursor() == if end - s == per_iter {
                    Some(end)
                } else {
                    None
                }
            },
    {
        if !self.active {
            return Vec::new();
        }
        let start = match self.cursor {
            Some(c) => c,
            None => 0,
        };
        let remaining = self.pairs.len() - start;
        let take = if per_iter <= remaining {
            per_iter
        } else {
            remaining
        };
        let out = self.hand_out(start, take);
        if take != per_iter {
            self.active = false;
            self.cursor = None;
        } else {
            self.cursor = Some(start + take);
        }
        out
    }

    /// Hands out the relations of every pair that the pass under way has not handed
    /// out yet (all of them when no pass has begun), and drops the pass; the planet
    /// stays selected. Without a selected planet nothing changes.
    pub fn load_all(&mut self) -> (r: Vec<(u32, u32)>)
        requires
            old(self).wf(),
        ensures
            final(self).wf(),
            final(self).pairs() == old(self).pairs(),
            final(self).active() == old(self).active(),
            old(self).active() ==> r@ == both_ways(
                old(self).pairs().subrange(old(self).start(), old(self).pairs().len() as int),
            ) && final(self).cursor() is None,
            !old(self).active() ==> r@.len() == 0 && final(self).cursor() == old(self).cursor(),
    {
        if !self.active {
            return Vec::new();
        }
        let start = match self.cursor {
            Some(c) => c,
            None => 0,
        };
        let remaining = self.pairs.len() - start;
        let out = self.hand_out(start, remaining);
        self.cursor = None;
        out
    }

    fn hand_out(&self, start: usize, take: usize) -> (r: Vec<(u32, u32)>)
        requires
            start + take <= self.pairs().len(),
        ensures
            r@ == both_ways(self.pairs().subrange(start as int, start + take)),
    {
        let len = self.pairs.len();
        let ghost taken = self.pairs@.subrange(start as int, start + take);
        let mut out: Vec<(u32, u32)> = Vec::new();
        let mut i: usize = 0;
        while i < take
            invariant
                len == self.pairs@.len(),
                start + take <= self.pairs@.len(),
                taken == self.pairs@.subrange(start as int, start + take),
                0 <= i <= take,
                out@ =~= both_ways(taken).take(2 * i),
            decreases take - i,
        {
            let (a, b) = self.pairs[start + i];
            out.push((a, b));
            out.push((b, a));
            proof {
                let w = both_ways(taken);
                assert(w.take(2 * (i + 1)) =~= w.take(2 * i).push((a, b)).push((b, a))) by {
                    vstd::arithmetic::div_mod::lemma_fundamental_div_mod_converse(2 * i as int, 2, i as int, 0);
                    vstd::arithmetic::div_mod::lemma_fundamental_div_mod_converse(2 * i + 1, 2, i as int, 1);
                    assert(taken[i as int] == (a, b));
                }
            }
            i = i + 1;
        }
        assert(out@ =~= both_ways(taken));
        out
    }
}

} // verus!
