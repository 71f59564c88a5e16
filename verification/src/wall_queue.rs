//! The bag-based admission scheduler.
//!
//! An ordered queue of instance numbers with holes: a removed entry leaves a
//! hole so that the positions of its neighbours survive until the next
//! compaction, which makes removal safe to race with a pop.  `pop` releases
//! the first `bag_size` slots as one bag, dropping holes, and compacts the
//! holes out of the remaining tail.

use vstd::prelude::*;

verus! {

/// The live instance numbers of a slot sequence, in order, holes skipped.
pub open spec fn live(s: Seq<Option<u32>>) -> Seq<u32>
    decreases s.len(),
{
    if s.len() == 0 {
        Seq::empty()
    } else {
        live(s.drop_last()) + (match s.last() {
            Some(v) => seq![v],
            None => Seq::empty(),
        })
    }
}

/// A slot sequence with no holes holding exactly the given numbers.
pub open spec fn somes(s: Seq<u32>) -> Seq<Option<u32>> {
    s.map_values(|v: u32| Some(v))
}

/// Index of the first slot holding `n`; the length of `s` when none does.
pub open spec fn slot_idx_of(s: Seq<Option<u32>>, n: u32) -> int
    decreases s.len(),
{
    if s.len() == 0 {
        0
    } else if s[0] == Some(n) {
        0
    } else {
        1 + slot_idx_of(s.drop_first(), n)
    }
}

/// What `remove_by_instance_num` leaves: the first slot holding `n` becomes a
/// hole; positions do not shift, and an absent `n` changes nothing.
pub open spec fn spec_remove(s: Seq<Option<u32>>, n: u32) -> Seq<Option<u32>> {
    if slot_idx_of(s, n) == s.len() {
        s
    } else {
        s.update(slot_idx_of(s, n), None)
    }
}

pub proof fn lemma_slot_idx_of(s: Seq<Option<u32>>, n: u32)
    ensures
        0 <= slot_idx_of(s, n) <= s.len(),
        slot_idx_of(s, n) < s.len() ==> s[slot_idx_of(s, n)] == Some(n),
        forall|j: int| 0 <= j < slot_idx_of(s, n) ==> s[j] != Some(n),
    decreases s.len(),
{
    if s.len() == 0 {
    } else if s[0] == Some(n) {
    } else {
        lemma_slot_idx_of(s.drop_first(), n);
        assert forall|j: int| 0 <= j < slot_idx_of(s, n) implies s[j] != Some(n) by {
            if j > 0 {
                assert(s.drop_first()[j - 1] == s[j]);
            }
        }
    }
}

/// An ordered admission queue that releases instances in fixed-size bags.
pub struct WallQueue {
    queue: Vec<Option<u32>>,
    bag_size: usize,
}

impl WallQueue {
    /// The slot sequence, holes included.
    pub closed spec fn slots(self) -> Seq<Option<u32>> {
        self.queue@
    }

    /// The fixed bag size.
    pub closed spec fn bag(self) -> int {
        self.bag_size as int
    }

    /// An empty queue releasing bags of four.
    pub fn new() -> (r: WallQueue)
        ensures
            r.slots() == Seq::<Option<u32>>::empty(),
            r.bag() == 4,
    {
        WallQueue { queue: Vec::new(), bag_size: 4 }
    }

    /// Appends a ready instance at the tail.
    pub fn push(&mut self, instance_num: u32)
        ensures
            final(self).slots() == old(self).slots().push(Some(instance_num)),
            final(self).bag() == old(self).bag(),
    {
        self.queue.push(Some(instance_num));
    }

    /// Whether a full bag is available.
    pub fn can_pop(&self) -> (r: bool)
        ensures
            r == (self.slots().len() >= self.bag()),
    {
        self.queue.len() >= self.bag_size
    }

    /// The fixed bag size.
    pub fn bag_size(&self) -> (r: usize)
        ensures
            r == self.bag(),
    {
        self.bag_size
    }

    /// Number of slots, holes included.
    pub fn len(&self) -> (r: usize)
        ensures
            r == self.slots().len(),
    {
        self.queue.len()
    }

    /// The slot at `i`.
    pub fn slot(&self, i: usize) -> (r: Option<u32>)
        requires
            i < self.slots().len(),
        ensures
            r == self.slots()[i as int],
    {
        self.queue[i]
    }

    /// Drops every entry; pending admission state is gone.
    pub fn clear(&mut self)
        ensures
            final(self).slots() == Seq::<Option<u32>>::empty(),
            final(self).bag() == old(self).bag(),
    {
        self.queue.clear();
    }

    /// Releases one bag: returns the live entries of the first `bag` slots in
    /// order, and compacts the holes out of the remaining tail.
    #[verifier::loop_isolation(false)]
    pub fn pop(&mut self) -> (r: Vec<u32>)
        requires
            old(self).slots().len() >= old(self).bag(),
        ensures
            r@ == live(old(self).slots().subrange(0, old(self).bag())),
            final(self).slots() == somes(
                live(old(self).slots().subrange(old(self).bag(), old(self).slots().len() as int)),
            ),
            final(self).bag() == old(self).bag(),
    {
        let ghost s0 = self.slots();
        let bag = self.bag_size;
        let qlen = self.queue.len();
        let mut r: Vec<u32> = Vec::new();
        let mut i: usize = 0;
        while i < bag
            invariant
                i <= bag,
                r@ == live(s0.subrange(0, i as int)),
            decreases bag - i,
        {
            proof {
                assert(s0.subrange(0, i + 1).drop_last() =~= s0.subrange(0, i as int));
            }
            match self.queue[i] {
                Some(v) => {
                    r.push(v);
                    proof {
                        assert(r@ =~= live(s0.subrange(0, i + 1)));
                    }
                },
                None => {
                    proof {
                        assert(r@ =~= live(s0.subrange(0, i + 1)));
                    }
                },
            }
            i += 1;
        }
        let mut rest: Vec<Option<u32>> = Vec::new();
        let mut j: usize = bag;
        while j < qlen
            invariant
                bag <= j <= qlen,
                rest@ == somes(live(s0.subrange(bag as int, j as int))),
            decreases qlen - j,
        {
            proof {
                assert(s0.subrange(bag as int, j + 1).drop_last() =~= s0.subrange(
                    bag as int,
                    j as int,
                ));
            }
            match self.queue[j] {
                Some(v) => {
                    rest.push(Some(v));
                    proof {
                        assert(rest@ =~= somes(live(s0.subrange(bag as int, j + 1))));
                    }
                },
                None => {
                    proof {
                        assert(rest@ =~= somes(live(s0.subrange(bag as int, j + 1))));
                    }
                },
            }
            j += 1;
        }
        self.queue = rest;
        r
    }

    /// Whether some live entry holds `n`.
    #[verifier::loop_isolation(false)]
    pub fn contains_num(&self, n: u32) -> (r: bool)
        ensures
            r == live(self.slots()).contains(n),
    {
        proof {
            lemma_live_contains(self.slots(), n);
        }
        let mut i: usize = 0;
        let qlen = self.queue.len();
        while i < qlen
            invariant
                i <= qlen,
                forall|j: int| 0 <= j < i ==> self.slots()[j] != Some(n),
            decreases qlen - i,
        {
            let hit = match self.queue[i] {
                Some(v) => v == n,
                None => false,
            };
            if hit {
                return true;
            }
            i += 1;
        }
        false
    }

    /// Replaces the first live entry holding `instance_num` with a hole, so
    /// that indices do not shift under an in-flight drain; absent numbers are
    /// ignored.
    #[verifier::loop_isolation(false)]
    pub fn remove_by_instance_num(&mut self, instance_num: u32)
        ensures
            final(self).slots() == spec_remove(old(self).slots(), instance_num),
            final(self).bag() == old(self).bag(),
    {
        proof {
            lemma_slot_idx_of(self.slots(), instance_num);
        }
        let ghost s0 = self.slots();
        let mut i: usize = 0;
        let qlen = self.queue.len();
        while i < qlen
            invariant
                i <= qlen,
                *self == *old(self),
                forall|j: int| 0 <= j < i ==> s0[j] != Some(instance_num),
            decreases qlen - i,
        {
            let hit = match self.queue[i] {
                Some(v) => v == instance_num,
                None => false,
            };
            if hit {
                proof {
                    if i < slot_idx_of(s0, instance_num) {
                        assert(s0[i as int] != Some(instance_num));
                    }
                    if slot_idx_of(s0, instance_num) < i {
                        assert(s0[slot_idx_of(s0, instance_num)] == Some(instance_num));
                    }
                }
                self.queue.set(i, None);
                return ;
            }
            i += 1;
        }
        proof {
            if slot_idx_of(s0, instance_num) < s0.len() {
                assert(s0[slot_idx_of(s0, instance_num)] == Some(instance_num));
            }
        }
    }
}

pub proof fn lemma_live_concat(a: Seq<Option<u32>>, b: Seq<Option<u32>>)
    ensures
        live(a + b) == live(a) + live(b),
    decreases b.len(),
{
    if b.len() == 0 {
        assert(a + b =~= a);
        assert(live(a) + live(b) =~= live(a));
    } else {
        lemma_live_concat(a, b.drop_last());
        assert((a + b).drop_last() =~= a + b.drop_last());
        match b.last() {
            Some(v) => {
                assert(live(a + b) =~= live(a) + live(b));
            },
            None => {
                assert(live(a + b) =~= live(a) + live(b));
            },
        }
    }
}

pub proof fn lemma_live_contains(s: Seq<Option<u32>>, v: u32)
    ensures
        live(s).contains(v) <==> exists|i: int| 0 <= i < s.len() && s[i] == Some(v),
    decreases s.len(),
{
    if s.len() == 0 {
    } else {
        lemma_live_contains(s.drop_last(), v);
        if live(s).contains(v) {
            let k = choose|k: int| 0 <= k < live(s).len() && live(s)[k] == v;
            if k < live(s.drop_last()).len() {
                assert(live(s.drop_last()).contains(v)) by {
                    assert(live(s.drop_last())[k] == v);
                }
                let i = choose|i: int|
                    0 <= i < s.drop_last().len() && s.drop_last()[i] == Some(v);
                assert(s[i] == Some(v));
            } else {
                assert(s.last() == Some(v));
                assert(s[s.len() - 1] == Some(v));
            }
        }
        if exists|i: int| 0 <= i < s.len() && s[i] == Some(v) {
            let i = choose|i: int| 0 <= i < s.len() && s[i] == Some(v);
            if i < s.len() - 1 {
                assert(s.drop_last()[i] == Some(v));
                assert(live(s.drop_last()).contains(v));
                let k = choose|k: int|
                    0 <= k < live(s.drop_last()).len() && live(s.drop_last())[k] == v;
                assert(live(s)[k] == v);
                assert(live(s).contains(v));
            } else {
                assert(s.last() == Some(v));
                assert(live(s).last() == v);
                assert(live(s).contains(v)) by {
                    assert(live(s)[live(s).len() - 1] == v);
                }
            }
        }
    }
}

pub proof fn lemma_live_somes(x: Seq<u32>)
    ensures
        live(somes(x)) == x,
    decreases x.len(),
{
    if x.len() == 0 {
        assert(live(somes(x)) =~= x);
    } else {
        lemma_live_somes(x.drop_last());
        assert(somes(x).drop_last() =~= somes(x.drop_last()));
        assert(somes(x).last() == Some(x.last()));
        assert(live(somes(x)) =~= x);
    }
}

/// A queue that has only been pushed to has no holes; a permitted pop then
/// returns exactly one bag, in push order.
pub proof fn lemma_pop_full_bag(s: Seq<Option<u32>>, bag: int)
    requires
        0 <= bag <= s.len(),
        forall|i: int| 0 <= i < s.len() ==> #[trigger] s[i] is Some,
    ensures
        live(s.subrange(0, bag)).len() == bag,
        forall|k: int| 0 <= k < bag ==> s[k] == Some(#[trigger] live(s.subrange(0, bag))[k]),
{
    lemma_live_all_some(s.subrange(0, bag));
}

pub proof fn lemma_live_all_some(s: Seq<Option<u32>>)
    requires
        forall|i: int| 0 <= i < s.len() ==> #[trigger] s[i] is Some,
    ensures
        live(s).len() == s.len(),
        forall|i: int| 0 <= i < s.len() ==> s[i] == Some(#[trigger] live(s)[i]),
    decreases s.len(),
{
    if s.len() > 0 {
        lemma_live_all_some(s.drop_last());
        assert(s.last() is Some);
        assert forall|i: int| 0 <= i < s.len() implies s[i] == Some(#[trigger] live(s)[i]) by {
            if i < s.len() - 1 {
                assert(s.drop_last()[i] == Some(live(s.drop_last())[i]));
                assert(live(s)[i] == live(s.drop_last())[i]);
            }
        }
    }
}

proof fn lemma_nodup_concat(a: Seq<u32>, b: Seq<u32>)
    requires
        (a + b).no_duplicates(),
    ensures
        forall|v: u32| a.contains(v) ==> !b.contains(v),
        a.no_duplicates(),
        b.no_duplicates(),
{
    assert forall|v: u32| a.contains(v) implies !b.contains(v) by {
        if a.contains(v) && b.contains(v) {
            let i = choose|i: int| 0 <= i < a.len() && a[i] == v;
            let j = choose|j: int| 0 <= j < b.len() && b[j] == v;
            assert((a + b)[i] == v);
            assert((a + b)[a.len() + j] == v);
        }
    }
    assert forall|i: int, j: int|
        0 <= i < a.len() && 0 <= j < a.len() && i != j implies a[i] != a[j] by {
        assert((a + b)[i] == a[i]);
        assert((a + b)[j] == a[j]);
    }
    assert forall|i: int, j: int|
        0 <= i < b.len() && 0 <= j < b.len() && i != j implies b[i] != b[j] by {
        assert((a + b)[a.len() + i] == b[i]);
        assert((a + b)[a.len() + j] == b[j]);
    }
}

/// With distinct live entries, no instance appears twice across successive
/// pops: the popped bag and the queue a pop leaves behind share no number,
/// and the leftover queue's entries stay distinct.
pub proof fn lemma_successive_pops_disjoint(s: Seq<Option<u32>>, bag: int)
    requires
        0 <= bag <= s.len(),
        live(s).no_duplicates(),
    ensures
        forall|v: u32|
            live(s.subrange(0, bag)).contains(v) ==> !live(
                somes(live(s.subrange(bag, s.len() as int))),
            ).contains(v),
        live(somes(live(s.subrange(bag, s.len() as int)))).no_duplicates(),
{
    let a = s.subrange(0, bag);
    let b = s.subrange(bag, s.len() as int);
    assert(s =~= a + b);
    lemma_live_concat(a, b);
    lemma_nodup_concat(live(a), live(b));
    lemma_live_somes(live(b));
}

/// Removing an instance mid-drain never lets it resurface in the popped bag:
/// after `remove_by_instance_num` on a queue with distinct live entries, no
/// slot holds the number, so no pop can return it.
pub proof fn lemma_removed_never_pops(s: Seq<Option<u32>>, n: u32, bag: int)
    requires
        live(s).no_duplicates(),
        0 <= bag <= spec_remove(s, n).len(),
    ensures
        !live(spec_remove(s, n).subrange(0, bag)).contains(n),
{
    let r = spec_remove(s, n);
    lemma_slot_idx_of(s, n);
    let j = slot_idx_of(s, n);
    assert forall|i: int| 0 <= i < r.len() implies r[i] != Some(n) by {
        if j == s.len() {
        } else {
            if i != j && s[i] == Some(n) {
                lemma_one_slot_per_num(s, n, i, j);
            }
        }
    }
    lemma_live_contains(r.subrange(0, bag), n);
    if live(r.subrange(0, bag)).contains(n) {
        let i = choose|i: int| 0 <= i < bag && r.subrange(0, bag)[i] == Some(n);
        assert(r[i] == Some(n));
    }
}

proof fn lemma_one_slot_per_num(s: Seq<Option<u32>>, n: u32, i: int, j: int)
    requires
        0 <= i < s.len(),
        0 <= j < s.len(),
        s[i] == Some(n),
        s[j] == Some(n),
        live(s).no_duplicates(),
    ensures
        i == j,
{
    if i != j {
        let lo = if i < j {
            i
        } else {
            j
        };
        let hi = if i < j {
            j
        } else {
            i
        };
        let a = s.subrange(0, lo + 1);
        let b = s.subrange(lo + 1, s.len() as int);
        assert(s =~= a + b);
        lemma_live_concat(a, b);
        lemma_nodup_concat(live(a), live(b));
        assert(a[lo] == Some(n));
        lemma_live_contains(a, n);
        assert(b[hi - lo - 1] == Some(n));
        lemma_live_contains(b, n);
        assert(live(a).contains(n) && live(b).contains(n));
    }
}

} // verus!
