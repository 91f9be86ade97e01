//! A binary min-heap of integer keys.
use vstd::multiset::Multiset;
use vstd::prelude::*;
use vstd::seq_lib::to_multiset_update;

verus! {

/// A priority queue that hands its smallest key out first.
pub struct MinHeap {
    keys: Vec<u64>,
}

impl View for MinHeap {
    type V = Multiset<u64>;

    closed spec fn view(&self) -> Multiset<u64> {
        self.keys@.to_multiset()
    }
}

/// The key at `i` is at least as large as the key over it.
spec fn above_ok(s: Seq<u64>, i: int) -> bool {
    s[(i - 1) / 2] <= s[i]
}

/// No key is smaller than the key over it, but for the one at `hole`.
spec fn ordered_but_up(s: Seq<u64>, hole: int) -> bool {
    &&& forall|i: int| 0 < i < s.len() && i != hole ==> #[trigger] above_ok(s, i)
    &&& forall|i: int|
        #![trigger s[i]]
        0 < i < s.len() && (i - 1) / 2 == hole && hole > 0 ==> s[(hole - 1) / 2] <= s[i]
}

/// No key is smaller than the key over it, but for those under `hole`.
spec fn ordered_but_down(s: Seq<u64>, hole: int) -> bool {
    &&& forall|i: int| 0 < i < s.len() && (i - 1) / 2 != hole ==> #[trigger] above_ok(s, i)
    &&& forall|i: int|
        #![trigger s[i]]
        0 < i < s.len() && (i - 1) / 2 == hole && hole > 0 ==> s[(hole - 1) / 2] <= s[i]
}

/// No key is smaller than the key over it.
spec fn ordered(s: Seq<u64>) -> bool {
    forall|i: int| 0 < i < s.len() ==> #[trigger] above_ok(s, i)
}

proof fn lemma_root_is_least(s: Seq<u64>, i: int)
    requires
        ordered(s),
        0 <= i < s.len(),
    ensures
        s[0] <= s[i],
    decreases i,
{
    if i > 0 {
        lemma_root_is_least(s, (i - 1) / 2);
        assert(above_ok(s, i));
    }
}

proof fn lemma_swap_keeps_contents(s: Seq<u64>, i: int, j: int)
    requires
        0 <= i < s.len(),
        0 <= j < s.len(),
    ensures
        s.update(i, s[j]).update(j, s[i]).to_multiset() == s.to_multiset(),
{
    to_multiset_update(s, i, s[j]);
    let t = s.update(i, s[j]);
    to_multiset_update(t, j, s[i]);
    s.to_multiset_ensures();
    t.to_multiset_ensures();
    assert(s.to_multiset().contains(s[i]));
    if i == j {
        assert(t.update(j, s[i]) =~= s);
    } else {
        assert(t[j] == s[j]);
        assert(t.update(j, s[i]).to_multiset() =~= s.to_multiset());
    }
}

impl MinHeap {
    /// Every key is at least as large as the key over it.
    pub closed spec fn wf(&self) -> bool {
        ordered(self.keys@)
    }

    /// A queue with no key.
    pub fn new() -> (q: MinHeap)
        ensures
            q.wf(),
            q@ == Multiset::<u64>::empty(),
    {
        let q = MinHeap { keys: Vec::new() };
        proof {
            q.keys@.to_multiset_ensures();
            assert(q@.len() == 0);
            assert(q@ =~= Multiset::empty());
        }
        q
    }

    /// Takes a key in.
    pub fn push(&mut self, key: u64)
        requires
            old(self).wf(),
        ensures
            final(self).wf(),
            final(self)@ == old(self)@.insert(key),
    {
        let ghost all = self.keys@;
        proof {
            self.keys@.to_multiset_ensures();
        }
        self.keys.push(key);
        let mut hole: usize = self.keys.len() - 1;
        proof {
            assert forall|i: int| 0 < i < self.keys@.len() && i != hole implies #[trigger] above_ok(
                self.keys@,
                i,
            ) by {
                assert(above_ok(all, i));
            }
        }
        while hole > 0 && self.keys[hole] < self.keys[(hole - 1) / 2]
            invariant
                hole < self.keys@.len(),
                ordered_but_up(self.keys@, hole as int),
                self.keys@.to_multiset() == old(self)@.insert(key),
            decreases hole,
        {
            let up: usize = (hole - 1) / 2;
            let (low, high) = (self.keys[hole], self.keys[up]);
            let ghost before = self.keys@;
            proof {
                lemma_swap_keeps_contents(before, up as int, hole as int);
            }
            self.keys.set(up, low);
            self.keys.set(hole, high);
            proof {
                let s = self.keys@;
                assert(s == before.update(up as int, before[hole as int]).update(
                    hole as int,
                    before[up as int],
                ));
                assert forall|i: int| 0 < i < s.len() && i != up implies #[trigger] above_ok(
                    s,
                    i,
                ) by {
                    assert(above_ok(before, i) || i == hole);
                }
                assert forall|i: int|
                    #![trigger s[i]]
                    0 < i < s.len() && (i - 1) / 2 == up && up > 0 implies s[(up - 1) / 2]
                    <= s[i] by {
                    assert(above_ok(before, up as int));
                    assert(above_ok(before, i) || i == hole);
                }
            }
            hole = up;
        }
        proof {
            assert(hole > 0 ==> above_ok(self.keys@, hole as int));
        }
    }

    /// Lets the key at the root sink to its place.
    fn sink(&mut self)
        requires
            old(self).keys@.len() > 0,
            ordered_but_down(old(self).keys@, 0),
        ensures
            final(self).wf(),
            final(self)@ == old(self)@,
    {
        let mut hole: usize = 0;
        loop
            invariant
                hole < self.keys@.len(),
                ordered_but_down(self.keys@, hole as int),
                self@ == old(self)@,
            ensures
                self.wf(),
                self@ == old(self)@,
            decreases self.keys@.len() - hole,
        {
            let n: usize = self.keys.len();
            let ghost before = self.keys@;
            if hole >= n / 2 {
                assert forall|i: int| 0 < i < before.len() implies #[trigger] above_ok(
                    before,
                    i,
                ) by {}
                break;
            }
            let left: usize = 2 * hole + 1;
            let mut down: usize = left;
            if left < n - 1 && self.keys[left + 1] < self.keys[left] {
                down = left + 1;
            }
            if self.keys[hole] <= self.keys[down] {
                assert forall|i: int| 0 < i < before.len() implies #[trigger] above_ok(
                    before,
                    i,
                ) by {
                    if (i - 1) / 2 == hole {
                        assert(i == left || i == left + 1);
                    }
                }
                break;
            }
            let (low, high) = (self.keys[down], self.keys[hole]);
            proof {
                lemma_swap_keeps_contents(before, hole as int, down as int);
            }
            self.keys.set(hole, low);
            self.keys.set(down, high);
            proof {
                let s = self.keys@;
                assert forall|i: int| 0 < i < s.len() && (i - 1) / 2 != down implies
                    #[trigger] above_ok(s, i) by {
                    if (i - 1) / 2 == hole {
                        assert(i == left || i == left + 1);
                    } else if i == hole {
                        assert(before[(hole - 1) / 2] <= before[down as int]);
                    } else {
                        assert(above_ok(before, i));
                    }
                }
                assert forall|i: int|
                    #![trigger s[i]]
                    0 < i < s.len() && (i - 1) / 2 == down implies s[(down - 1) / 2] <= s[i] by {
                    assert(above_ok(before, i));
                }
            }
            hole = down;
        }
    }

    /// Hands out the smallest key, if there is one.
    pub fn pop(&mut self) -> (r: Option<u64>)
        requires
            old(self).wf(),
        ensures
            final(self).wf(),
            match r {
                None => old(self)@.len() == 0 && final(self)@ == old(self)@,
                Some(k) => {
                    &&& old(self)@.contains(k)
                    &&& forall|o: u64| old(self)@.contains(o) ==> k <= o
                    &&& final(self)@ == old(self)@.remove(k)
                    &&& old(self)@.len() > 0
                },
            },
    {
        let ghost all = self.keys@;
        proof {
            all.to_multiset_ensures();
        }
        let n: usize = self.keys.len();
        if n == 0 {
            return None;
        }
        let least: u64 = self.keys[0];
        let last: u64 = self.keys[n - 1];
        proof {
            assert(all.contains(all[0]));
            assert forall|o: u64| all.to_multiset().contains(o) implies least <= o by {
                assert(all.contains(o));
                let i = choose|i: int| 0 <= i < all.len() && all[i] == o;
                lemma_root_is_least(all, i);
            }
        }
        self.keys.truncate(n - 1);
        let ghost short = self.keys@;
        proof {
            assert(short =~= all.remove(all.len() - 1));
            assert(short.to_multiset() =~= all.to_multiset().remove(last));
            short.to_multiset_ensures();
            assert forall|i: int| 0 < i < short.len() implies #[trigger] above_ok(short, i) by {
                assert(above_ok(all, i));
            }
        }
        if n == 1 {
            return Some(least);
        }
        self.keys.set(0, last);
        proof {
            to_multiset_update(short, 0, last);
            assert(short.contains(short[0]));
            assert(self.keys@.to_multiset() =~= all.to_multiset().remove(least));
            assert forall|i: int| 0 < i < self.keys@.len() && (i - 1) / 2 != 0 implies
                #[trigger] above_ok(self.keys@, i) by {
                assert(above_ok(short, i));
            }
        }
        self.sink();
        Some(least)
    }
}

} // verus!
