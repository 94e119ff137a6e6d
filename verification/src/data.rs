//! The training-data container: an ordered, indexable sequence of
//! (key, position) pairs, sorted ascending by key, with positions
//! nondecreasing (positions are ranks of a stable sort by key).
use vstd::prelude::*;

verus! {

/// Both components nondecreasing: keys sorted ascending, positions the
/// ranks a stable sort assigns, so nondecreasing as well.
pub open spec fn pairs_sorted(s: Seq<(u64, u64)>) -> bool {
    forall|i: int, j: int|
        0 <= i <= j < s.len() ==> #[trigger] s[i].0 <= #[trigger] s[j].0 && s[i].1 <= s[j].1
}

/// A sorted sequence of (key, position) training pairs.
pub struct RMITrainingData {
    pairs: Vec<(u64, u64)>,
}

impl View for RMITrainingData {
    type V = Seq<(u64, u64)>;

    closed spec fn view(&self) -> Seq<(u64, u64)> {
        self.pairs@
    }
}

proof fn lemma_pair_le(s: Seq<(u64, u64)>, i: int, j: int)
    requires
        forall|k: int| 0 <= k < s.len() - 1 ==> (#[trigger] s[k]).0 <= s[k + 1].0 && s[k].1 <= s[k + 1].1,
        0 <= i <= j < s.len(),
    ensures
        s[i].0 <= s[j].0 && s[i].1 <= s[j].1,
    decreases j - i,
{
    if i < j {
        lemma_pair_le(s, i, j - 1);
        assert(s[j - 1].0 <= s[j].0 && s[j - 1].1 <= s[j].1);
    }
}

impl RMITrainingData {
    pub open spec fn wf(&self) -> bool {
        pairs_sorted(self@)
    }

    /// Wraps a pair vector, refusing one that is not sorted.
    pub fn new(pairs: Vec<(u64, u64)>) -> (r: Option<RMITrainingData>)
        ensures
            r is Some <==> pairs_sorted(pairs@),
            r matches Some(c) ==> c@ == pairs@ && c.wf(),
    {
        let n = pairs.len();
        if n == 0 {
            return Some(RMITrainingData { pairs });
        }
        let mut i: usize = 0;
        while i < n - 1
            invariant
                n == pairs.len(),
                n >= 1,
                0 <= i <= n,
                forall|k: int| 0 <= k < i ==> (#[trigger] pairs@[k]).0 <= pairs@[k + 1].0
                    && pairs@[k].1 <= pairs@[k + 1].1,
            decreases n - i,
        {
            let a = pairs[i];
            let b = pairs[i + 1];
            if a.0 > b.0 || a.1 > b.1 {
                proof {
                    assert(!pairs_sorted(pairs@)) by {
                        assert(pairs@[i as int].0 > pairs@[i + 1].0 || pairs@[i as int].1 > pairs@[
                            i + 1].1);
                    }
                }
                return None;
            }
            i = i + 1;
        }
        proof {
            assert forall|a: int, b: int| 0 <= a <= b < pairs@.len() implies (#[trigger] pairs@[a]).0
                <= (#[trigger] pairs@[b]).0 && pairs@[a].1 <= pairs@[b].1 by {
                lemma_pair_le(pairs@, a, b);
            }
        }
        Some(RMITrainingData { pairs })
    }

    /// A container with no pairs.
    pub fn empty() -> (r: RMITrainingData)
        ensures
            r@ == Seq::<(u64, u64)>::empty(),
            r.wf(),
    {
        RMITrainingData { pairs: Vec::new() }
    }

    pub fn len(&self) -> (r: usize)
        ensures
            r == self@.len(),
    {
        self.pairs.len()
    }

    pub fn get(&self, i: usize) -> (r: (u64, u64))
        requires
            i < self@.len(),
        ensures
            r == self@[i as int],
    {
        self.pairs[i]
    }

    pub fn get_key(&self, i: usize) -> (r: u64)
        requires
            i < self@.len(),
        ensures
            r == self@[i as int].0,
    {
        self.pairs[i].0
    }

    /// Appends a pair; the caller keeps the container sorted.
    pub fn push_pair(&mut self, key: u64, pos: u64)
        requires
            old(self).wf(),
            old(self)@.len() < usize::MAX,
            old(self)@.len() > 0 ==> old(self)@.last().0 <= key && old(self)@.last().1 <= pos,
        ensures
            final(self)@ == old(self)@.push((key, pos)),
            final(self).wf(),
    {
        proof {
            let s = self@.push((key, pos));
            assert forall|i: int, j: int| 0 <= i <= j < s.len() implies (#[trigger] s[i]).0
                <= (#[trigger] s[j]).0 && s[i].1 <= s[j].1 by {
                if j < s.len() - 1 {
                    assert(s[i] == self@[i] && s[j] == self@[j]);
                } else if i < j {
                    assert(s[i] == self@[i]);
                    assert(self@[i].0 <= self@.last().0 && self@[i].1 <= self@.last().1);
                }
            }
        }
        self.pairs.push((key, pos));
    }
}

} // verus!
