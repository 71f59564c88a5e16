//! The instance manager: the roster, the admission queue, the locked roster,
//! and the record of in-flight resets.
//!
//! Every verb here is a decision: it mutates the manager's own state and
//! returns the actions (cancellations, reset signals, resource-control
//! calls) the surrounding process must carry out.  The manager never holds
//! more than one in-flight reset per instance: a new request for the same
//! instance first cancels the prior task.

use crate::instance::{
    spec_new_instance, spec_reset_begin_emits, spec_reset_begin_state, Instance, InstanceInfo,
};
use crate::state::InstanceState;
use crate::wall_queue::{live, somes, WallQueue};
use vstd::prelude::*;

verus! {

/// What a reset request asks the surrounding process to do: cancel the prior
/// task when one is in flight, spawn a fresh reset task, and send the
/// reset-initiation signal unless a running cycle was taken over.
#[derive(Clone, Copy, Debug, PartialEq, Eq, Structural)]
pub struct ResetAction {
    pub instance_num: u32,
    /// A prior in-flight reset exists; its cancellation channel must be
    /// signalled before the fresh task starts.
    pub cancel_prior: bool,
    /// The reset-initiation signal must be sent to the game process.
    pub emit_reset_signal: bool,
}

/// Owns the roster and all scheduling state.
pub struct InstanceManager {
    /// The full instance roster, in discovery order.
    pub instances: Vec<Instance>,
    /// Instance numbers with an in-flight reset task; never holds a number
    /// twice.
    pub reset_inflight: Vec<u32>,
    /// The bag-based admission queue of preview-ready instances.
    pub preview_unlocked_wall_queue: WallQueue,
    /// Numbers of the operator-locked instances, in lock order.
    pub locked_instances: Vec<u32>,
}

/// The manager's state as mathematical values.
pub ghost struct ManagerView {
    pub instances: Seq<Instance>,
    pub slots: Seq<Option<u32>>,
    pub bag: int,
    pub locked: Seq<u32>,
    pub inflight: Seq<u32>,
}

impl View for InstanceManager {
    type V = ManagerView;

    open spec fn view(&self) -> ManagerView {
        ManagerView {
            instances: self.instances@,
            slots: self.preview_unlocked_wall_queue.slots(),
            bag: self.preview_unlocked_wall_queue.bag(),
            locked: self.locked_instances@,
            inflight: self.reset_inflight@,
        }
    }
}

/// The instance numbers of a roster, in order.
pub open spec fn nums_of(s: Seq<Instance>) -> Seq<u32> {
    s.map_values(|i: Instance| i.instance_info.instance_num)
}

/// Index of the first roster entry with the given number; the roster length
/// when none matches.
pub open spec fn find_num(s: Seq<Instance>, num: u32) -> int
    decreases s.len(),
{
    if s.len() == 0 {
        0
    } else if s[0].instance_info.instance_num == num {
        0
    } else {
        1 + find_num(s.drop_first(), num)
    }
}

pub proof fn lemma_find_num(s: Seq<Instance>, num: u32)
    ensures
        0 <= find_num(s, num) <= s.len(),
        find_num(s, num) < s.len() ==> s[find_num(s, num)].instance_info.instance_num == num,
        forall|j: int|
            0 <= j < find_num(s, num) ==> (#[trigger] s[j]).instance_info.instance_num != num,
        find_num(s, num) == s.len() ==> !nums_of(s).contains(num),
        find_num(s, num) < s.len() ==> nums_of(s).contains(num),
    decreases s.len(),
{
    if s.len() == 0 {
    } else if s[0].instance_info.instance_num == num {
        assert(nums_of(s)[0] == num);
    } else {
        lemma_find_num(s.drop_first(), num);
        assert forall|j: int|
            0 <= j < find_num(s, num) implies (#[trigger] s[j]).instance_info.instance_num
            != num by {
            if j > 0 {
                assert(s.drop_first()[j - 1] == s[j]);
            }
        }
        if find_num(s, num) == s.len() {
            if nums_of(s).contains(num) {
                let k = choose|k: int| 0 <= k < s.len() && nums_of(s)[k] == num;
                assert(s[k].instance_info.instance_num == num);
            }
        } else {
            let k = find_num(s, num);
            assert(nums_of(s)[k] == num);
        }
    }
}

/// Rosters whose entries carry the same numbers index alike.
pub proof fn lemma_find_num_congruence(a: Seq<Instance>, b: Seq<Instance>, num: u32)
    requires
        a.len() == b.len(),
        forall|i: int|
            0 <= i < a.len() ==> (#[trigger] a[i]).instance_info.instance_num
                == b[i].instance_info.instance_num,
    ensures
        find_num(a, num) == find_num(b, num),
    decreases a.len(),
{
    if a.len() > 0 {
        assert(a[0].instance_info.instance_num == b[0].instance_info.instance_num);
        assert forall|i: int|
            0 <= i < a.drop_first().len() implies (#[trigger] a.drop_first()[
            i]).instance_info.instance_num == b.drop_first()[i].instance_info.instance_num by {
            assert(a.drop_first()[i] == a[i + 1]);
            assert(b.drop_first()[i] == b[i + 1]);
        }
        lemma_find_num_congruence(a.drop_first(), b.drop_first(), num);
    }
}

impl ManagerView {
    /// Well-formedness: the roster's numbers are unique and small enough for
    /// the per-instance affinity lanes; the queue's live entries and both
    /// rosters hold known numbers without repetition; the locked roster
    /// mirrors the per-instance locked flags; bags hold four.
    pub open spec fn wf(self) -> bool {
        &&& nums_of(self.instances).no_duplicates()
        &&& forall|i: int|
            0 <= i < self.instances.len() ==> (#[trigger] self.instances[i]).instance_info.instance_num
                < 32
        &&& live(self.slots).no_duplicates()
        &&& forall|v: u32| live(self.slots).contains(v) ==> nums_of(self.instances).contains(v)
        &&& self.bag == 4
        &&& self.locked.no_duplicates()
        &&& forall|v: u32| self.locked.contains(v) ==> nums_of(self.instances).contains(v)
        &&& forall|i: int|
            0 <= i < self.instances.len() ==> ((#[trigger] self.instances[i]).locked
                <==> self.locked.contains(self.instances[i].instance_info.instance_num))
        &&& self.inflight.no_duplicates()
        &&& forall|v: u32| self.inflight.contains(v) ==> nums_of(self.instances).contains(v)
    }
}

/// The manager a reset request for `num` leaves behind: the matching
/// instance enters a fresh cycle and at most one in-flight reset for `num`
/// remains recorded; an unknown number changes nothing.
pub open spec fn spec_reset_one(v: ManagerView, num: u32) -> ManagerView {
    let idx = find_num(v.instances, num);
    if idx == v.instances.len() {
        v
    } else {
        ManagerView {
            instances: v.instances.update(idx, spec_reset_begin_state(v.instances[idx])),
            inflight: if v.inflight.contains(num) {
                v.inflight
            } else {
                v.inflight.push(num)
            },
            ..v
        }
    }
}

/// The action a reset request returns: nothing for an unknown number (the
/// explicit not-found outcome), else the cancellation and signalling work.
pub open spec fn spec_reset_one_action(v: ManagerView, num: u32) -> Option<ResetAction> {
    let idx = find_num(v.instances, num);
    if idx == v.instances.len() {
        None
    } else {
        Some(
            ResetAction {
                instance_num: num,
                cancel_prior: v.inflight.contains(num),
                emit_reset_signal: spec_reset_begin_emits(v.instances[idx]),
            },
        )
    }
}

/// Mutable access to one roster entry.
fn inst_at<'a>(v: &'a mut Vec<Instance>, i: usize) -> (r: &'a mut Instance)
    requires
        i < old(v)@.len(),
    ensures
        *r == old(v)@[i as int],
        final(v)@ == old(v)@.update(i as int, *final(r)),
{
    &mut v[i]
}

/// Whether a number occurs in a vector.
#[verifier::loop_isolation(false)]
fn contains_u32(v: &Vec<u32>, x: u32) -> (r: bool)
    ensures
        r == v@.contains(x),
{
    let mut i: usize = 0;
    while i < v.len()
        invariant
            i <= v@.len(),
            forall|j: int| 0 <= j < i ==> v@[j] != x,
        decreases v@.len() - i,
    {
        if v[i] == x {
            return true;
        }
        i += 1;
    }
    false
}

impl InstanceManager {
    /// Index of the roster entry with the given number, or nothing: the
    /// explicit not-found outcome for unknown numbers.
    #[verifier::loop_isolation(false)]
    pub fn get_instance_by_instance_num(&self, instance_num: u32) -> (r: Option<usize>)
        ensures
            match r {
                Some(i) => i == find_num(self@.instances, instance_num) && i
                    < self@.instances.len()
                    && self@.instances[i as int].instance_info.instance_num == instance_num,
                None => !nums_of(self@.instances).contains(instance_num),
            },
    {
        proof {
            lemma_find_num(self@.instances, instance_num);
        }
        let mut i: usize = 0;
        let n = self.instances.len();
        while i < n
            invariant
                i <= n,
                forall|j: int|
                    0 <= j < i ==> (#[trigger] self@.instances[j]).instance_info.instance_num
                        != instance_num,
            decreases n - i,
        {
            if self.instances[i].instance_info.instance_num == instance_num {
                proof {
                    if i < find_num(self@.instances, instance_num) {
                        assert(self@.instances[i as int].instance_info.instance_num
                            != instance_num);
                    }
                    if find_num(self@.instances, instance_num) < i {
                        assert(self@.instances[find_num(
                            self@.instances,
                            instance_num,
                        )].instance_info.instance_num == instance_num);
                    }
                }
                return Some(i);
            }
            i += 1;
        }
        None
    }

    /// Requests a reset of the given instance: cancels any prior in-flight
    /// reset for it, records the fresh one, and begins the instance's cycle.
    /// Returns the work the caller must carry out, or nothing for an unknown
    /// number.
    ///
    /// Two requests in quick succession leave exactly one in-flight reset
    /// recorded for the instance: the record is never duplicated, and the
    /// second request's action says to cancel the first.
    pub fn reset_instance(&mut self, instance_num: u32) -> (r: Option<ResetAction>)
        requires
            old(self)@.wf(),
        ensures
            final(self)@ == spec_reset_one(old(self)@, instance_num),
            r == spec_reset_one_action(old(self)@, instance_num),
            final(self)@.wf(),
            r is Some ==> final(self)@.inflight.contains(instance_num)
                && final(self)@.inflight.no_duplicates(),
    {
        let ghost v0 = self@;
        proof {
            lemma_find_num(v0.instances, instance_num);
        }
        let idx = match self.get_instance_by_instance_num(instance_num) {
            Some(i) => i,
            None => {
                return None;
            },
        };
        let inst = inst_at(&mut self.instances, idx);
        let emit_reset_signal = inst.reset_begin();
        let cancel_prior = contains_u32(&self.reset_inflight, instance_num);
        if !cancel_prior {
            self.reset_inflight.push(instance_num);
        }
        proof {
            lemma_wf_after_reset_one(v0, instance_num);
            assert(self@ == spec_reset_one(v0, instance_num));
        }
        Some(ResetAction { instance_num, cancel_prior, emit_reset_signal })
    }
}

/// A reset request keeps the manager well-formed and records the instance's
/// in-flight reset exactly once.
proof fn lemma_wf_after_reset_one(v: ManagerView, num: u32)
    requires
        v.wf(),
    ensures
        spec_reset_one(v, num).wf(),
        find_num(v.instances, num) < v.instances.len() ==> spec_reset_one(
            v,
            num,
        ).inflight.contains(num),
        nums_of(spec_reset_one(v, num).instances) == nums_of(v.instances),
        spec_reset_one(v, num).slots == v.slots,
        spec_reset_one(v, num).bag == v.bag,
        spec_reset_one(v, num).locked == v.locked,
{
    lemma_find_num(v.instances, num);
    let idx = find_num(v.instances, num);
    if idx < v.instances.len() {
        let v1 = spec_reset_one(v, num);
        assert(nums_of(v1.instances) =~= nums_of(v.instances));
        assert forall|i: int|
            0 <= i < v1.instances.len() implies ((#[trigger] v1.instances[i]).locked
            <==> v1.locked.contains(v1.instances[i].instance_info.instance_num)) by {
            assert(v1.instances[i].locked == v.instances[i].locked);
            assert(v1.instances[i].instance_info == v.instances[i].instance_info);
        }
        if !v.inflight.contains(num) {
            assert forall|x: u32| v1.inflight.contains(x) implies nums_of(
                v1.instances,
            ).contains(x) by {
                let k = choose|k: int| 0 <= k < v1.inflight.len() && v1.inflight[k] == x;
                if k < v.inflight.len() {
                    assert(v.inflight.contains(x));
                } else {
                    assert(x == num);
                }
            }
            assert(v1.inflight.no_duplicates());
            assert(v1.inflight[v1.inflight.len() - 1] == num);
            assert(v1.inflight.contains(num));
        }
    }
}

/// A reset request for each of `nums`, in order.
pub open spec fn spec_reset_many(v: ManagerView, nums: Seq<u32>) -> ManagerView
    decreases nums.len(),
{
    if nums.len() == 0 {
        v
    } else {
        spec_reset_many(spec_reset_one(v, nums[0]), nums.drop_first())
    }
}

pub open spec fn opt_action(o: Option<ResetAction>) -> Seq<ResetAction> {
    match o {
        Some(a) => seq![a],
        None => Seq::empty(),
    }
}

/// The actions a reset request for each of `nums`, in order, returns.
pub open spec fn spec_reset_many_actions(v: ManagerView, nums: Seq<u32>) -> Seq<ResetAction>
    decreases nums.len(),
{
    if nums.len() == 0 {
        Seq::empty()
    } else {
        opt_action(spec_reset_one_action(v, nums[0])) + spec_reset_many_actions(
            spec_reset_one(v, nums[0]),
            nums.drop_first(),
        )
    }
}

proof fn lemma_reset_many_push(v: ManagerView, nums: Seq<u32>, x: u32)
    ensures
        spec_reset_many(v, nums.push(x)) == spec_reset_one(spec_reset_many(v, nums), x),
        spec_reset_many_actions(v, nums.push(x)) == spec_reset_many_actions(v, nums) + opt_action(
            spec_reset_one_action(spec_reset_many(v, nums), x),
        ),
    decreases nums.len(),
{
    if nums.len() == 0 {
        assert(nums.push(x)[0] == x);
        assert(nums.push(x).drop_first() =~= nums);
        assert(spec_reset_many(v, nums.push(x)) == spec_reset_many(spec_reset_one(v, x), nums));
        assert(spec_reset_many(spec_reset_one(v, x), nums) == spec_reset_one(v, x));
        assert(spec_reset_many(v, nums) == v);
        assert(spec_reset_many_actions(v, nums.push(x)) == opt_action(spec_reset_one_action(v, x))
            + spec_reset_many_actions(spec_reset_one(v, x), nums));
        assert(spec_reset_many_actions(spec_reset_one(v, x), nums) =~= Seq::<
            ResetAction,
        >::empty());
        assert(spec_reset_many_actions(v, nums) =~= Seq::<ResetAction>::empty());
        assert(opt_action(spec_reset_one_action(v, x)) + Seq::<ResetAction>::empty() =~= opt_action(
            spec_reset_one_action(v, x),
        ));
        assert(Seq::<ResetAction>::empty() + opt_action(spec_reset_one_action(v, x)) =~= opt_action(
            spec_reset_one_action(v, x),
        ));
    } else {
        let v1 = spec_reset_one(v, nums[0]);
        lemma_reset_many_push(v1, nums.drop_first(), x);
        assert(nums.push(x)[0] == nums[0]);
        assert(nums.push(x).drop_first() =~= nums.drop_first().push(x));
        assert(spec_reset_many(v, nums.push(x)) == spec_reset_many(v1, nums.drop_first().push(x)));
        assert(spec_reset_many(v, nums) == spec_reset_many(v1, nums.drop_first()));
        assert(spec_reset_many_actions(v, nums.push(x)) == opt_action(
            spec_reset_one_action(v, nums[0]),
        ) + spec_reset_many_actions(v1, nums.drop_first().push(x)));
        assert(spec_reset_many_actions(v, nums) == opt_action(spec_reset_one_action(v, nums[0]))
            + spec_reset_many_actions(v1, nums.drop_first()));
        assert(spec_reset_many_actions(v, nums.push(x)) =~= spec_reset_many_actions(v, nums)
            + opt_action(spec_reset_one_action(spec_reset_many(v, nums), x)));
    }
}

impl InstanceManager {
    /// Requests a reset of each number in `nums`, in order.
    #[verifier::loop_isolation(false)]
    fn reset_each(&mut self, nums: &Vec<u32>) -> (r: Vec<ResetAction>)
        requires
            old(self)@.wf(),
            forall|j: int|
                0 <= j < nums@.len() ==> nums_of(old(self)@.instances).contains(#[trigger] nums@[j]),
        ensures
            final(self)@ == spec_reset_many(old(self)@, nums@),
            r@ == spec_reset_many_actions(old(self)@, nums@),
            final(self)@.wf(),
            nums_of(final(self)@.instances) == nums_of(old(self)@.instances),
            r@.len() == nums@.len(),
    {
        let ghost v0 = self@;
        let mut r: Vec<ResetAction> = Vec::new();
        let mut k: usize = 0;
        let n = nums.len();
        while k < n
            invariant
                k <= n,
                self@ == spec_reset_many(v0, nums@.subrange(0, k as int)),
                r@ == spec_reset_many_actions(v0, nums@.subrange(0, k as int)),
                self@.wf(),
                nums_of(self@.instances) == nums_of(v0.instances),
                r@.len() == k,
            decreases n - k,
        {
            let ghost pre = self@;
            let num = nums[k];
            proof {
                lemma_find_num(pre.instances, num);
                lemma_wf_after_reset_one(pre, num);
                lemma_reset_many_push(v0, nums@.subrange(0, k as int), num);
                assert(nums@.subrange(0, k as int).push(num) =~= nums@.subrange(0, k + 1));
            }
            match self.reset_instance(num) {
                Some(act) => {
                    r.push(act);
                },
                None => {
                    proof {
                        assert(false);
                    }
                },
            }
            k += 1;
        }
        proof {
            assert(nums@.subrange(0, n as int) =~= nums@);
        }
        r
    }

    /// Releases one bag from the admission queue and requests a reset of each
    /// member, in queue order.
    pub fn reset_wall_bag(&mut self) -> (r: Vec<ResetAction>)
        requires
            old(self)@.wf(),
            old(self)@.slots.len() >= old(self)@.bag,
        ensures
            final(self)@ == spec_reset_many(after_pop(old(self)@), popped_bag(old(self)@)),
            r@ == spec_reset_many_actions(after_pop(old(self)@), popped_bag(old(self)@)),
            final(self)@.wf(),
            r@.len() == popped_bag(old(self)@).len(),
            final(self)@.slots == somes(
                live(old(self)@.slots.subrange(old(self)@.bag, old(self)@.slots.len() as int)),
            ),
            forall|k: int|
                0 <= k < popped_bag(old(self)@).len() ==> find_num(
                    old(self)@.instances,
                    #[trigger] popped_bag(old(self)@)[k],
                ) < old(self)@.instances.len() && final(self)@.instances[find_num(
                    old(self)@.instances,
                    popped_bag(old(self)@)[k],
                )].state is Resetting,
    {
        let ghost v0 = self@;
        proof {
            lemma_wf_after_pop(v0);
        }
        let nums = self.preview_unlocked_wall_queue.pop();
        assert forall|j: int|
            0 <= j < nums@.len() implies nums_of(self@.instances).contains(
            #[trigger] nums@[j],
        ) by {
            crate::wall_queue::lemma_live_contains(v0.slots.subrange(0, v0.bag), nums@[j]);
            let i = choose|i: int|
                0 <= i < v0.slots.subrange(0, v0.bag).len() && v0.slots.subrange(0, v0.bag)[i]
                    == Some(nums@[j]);
            crate::wall_queue::lemma_live_contains(v0.slots, nums@[j]);
            assert(v0.slots[i] == Some(nums@[j]));
        }
        let r = self.reset_each(&nums);
        proof {
            let va = after_pop(v0);
            lemma_reset_many_frame(va, nums@);
            lemma_bag_members_reset(va, nums@);
            assert forall|k: int| 0 <= k < nums@.len() implies find_num(
                v0.instances,
                #[trigger] nums@[k],
            ) < v0.instances.len() by {
                lemma_find_num(v0.instances, nums@[k]);
            }
        }
        r
    }

    /// Drops all pending admission state and requests a reset of every known
    /// instance, in roster order.
    #[verifier::loop_isolation(false)]
    pub fn reset_all_instances(&mut self) -> (r: Vec<ResetAction>)
        requires
            old(self)@.wf(),
        ensures
            final(self)@ == spec_reset_many(cleared(old(self)@), nums_of(old(self)@.instances)),
            r@ == spec_reset_many_actions(cleared(old(self)@), nums_of(old(self)@.instances)),
            final(self)@.wf(),
            r@.len() == old(self)@.instances.len(),
            final(self)@.slots == Seq::<Option<u32>>::empty(),
            forall|i: int|
                0 <= i < old(self)@.instances.len() ==> (#[trigger] final(self)@.instances[i]).state
                    is Resetting,
    {
        let ghost v0 = self@;
        self.preview_unlocked_wall_queue.clear();
        let mut nums: Vec<u32> = Vec::new();
        let mut i: usize = 0;
        let n = self.instances.len();
        while i < n
            invariant
                i <= n,
                nums@ == nums_of(v0.instances).subrange(0, i as int),
                self@ == cleared(v0),
            decreases n - i,
        {
            nums.push(self.instances[i].instance_info.instance_num);
            proof {
                assert(nums@ =~= nums_of(v0.instances).subrange(0, i + 1));
            }
            i += 1;
        }
        proof {
            assert(nums@ =~= nums_of(v0.instances));
            assert forall|j: int|
                0 <= j < nums@.len() implies nums_of(self@.instances).contains(
                #[trigger] nums@[j],
            ) by {
                assert(nums_of(self@.instances)[j] == nums@[j]);
            }
        }
        let r = self.reset_each(&nums);
        proof {
            let vc = cleared(v0);
            lemma_reset_many_frame(vc, nums@);
            lemma_bag_members_reset(vc, nums@);
            assert forall|i: int|
                0 <= i < v0.instances.len() implies (#[trigger] self@.instances[i]).state
                is Resetting by {
                lemma_find_num(v0.instances, nums@[i]);
                let f = find_num(v0.instances, nums@[i]);
                assert(nums_of(v0.instances)[i] == nums@[i]);
                if f < i {
                    assert(nums_of(v0.instances)[f] == v0.instances[f].instance_info.instance_num);
                } else if f > i {
                    assert(v0.instances[i].instance_info.instance_num == nums@[i]);
                }
                assert(f == i);
            }
        }
        r
    }
}

/// The members a pop of one bag releases: the live entries of the first
/// `bag` slots, in order.
pub open spec fn popped_bag(v: ManagerView) -> Seq<u32> {
    live(v.slots.subrange(0, v.bag))
}

/// The manager right after a pop: the first `bag` slots are gone and the
/// holes are compacted out of the tail.
pub open spec fn after_pop(v: ManagerView) -> ManagerView {
    ManagerView { slots: somes(live(v.slots.subrange(v.bag, v.slots.len() as int))), ..v }
}

/// The manager after the admission queue is dropped.
pub open spec fn cleared(v: ManagerView) -> ManagerView {
    ManagerView { slots: Seq::empty(), ..v }
}

proof fn lemma_wf_after_pop(v: ManagerView)
    requires
        v.wf(),
        0 <= v.bag <= v.slots.len(),
    ensures
        after_pop(v).wf(),
{
    crate::wall_queue::lemma_successive_pops_disjoint(v.slots, v.bag);
    let tail = v.slots.subrange(v.bag, v.slots.len() as int);
    crate::wall_queue::lemma_live_somes(live(tail));
    assert(v.slots =~= v.slots.subrange(0, v.bag) + tail);
    crate::wall_queue::lemma_live_concat(v.slots.subrange(0, v.bag), tail);
    assert forall|x: u32| live(after_pop(v).slots).contains(x) implies nums_of(
        v.instances,
    ).contains(x) by {
        assert(live(tail).contains(x));
        let k = choose|k: int| 0 <= k < live(tail).len() && live(tail)[k] == x;
        assert(live(v.slots)[live(v.slots.subrange(0, v.bag)).len() + k] == x);
        assert(live(v.slots).contains(x));
    }
}

/// Two reset requests in quick succession for one instance leave exactly one
/// in-flight reset recorded for it: the second request adds no record — it
/// cancels the first task instead.
pub proof fn lemma_reset_twice_single_task(v: ManagerView, num: u32)
    requires
        v.wf(),
        nums_of(v.instances).contains(num),
    ensures
        spec_reset_one(v, num).inflight.contains(num),
        spec_reset_one(spec_reset_one(v, num), num).inflight == spec_reset_one(v, num).inflight,
        spec_reset_one(spec_reset_one(v, num), num).inflight.no_duplicates(),
        spec_reset_one_action(spec_reset_one(v, num), num) matches Some(a) && a.cancel_prior,
{
    lemma_find_num(v.instances, num);
    lemma_wf_after_reset_one(v, num);
    let v1 = spec_reset_one(v, num);
    lemma_find_num(v1.instances, num);
    lemma_wf_after_reset_one(v1, num);
}

/// The instance numbers of the discovery results, in order.
pub open spec fn nums_of_infos(s: Seq<InstanceInfo>) -> Seq<u32> {
    s.map_values(|i: InstanceInfo| i.instance_num)
}

/// `s` with every occurrence of `n` dropped; the order of the rest is kept.
pub open spec fn without(s: Seq<u32>, n: u32) -> Seq<u32>
    decreases s.len(),
{
    if s.len() == 0 {
        Seq::empty()
    } else {
        without(s.drop_last(), n) + (if s.last() == n {
            Seq::empty()
        } else {
            seq![s.last()]
        })
    }
}

pub proof fn lemma_without(s: Seq<u32>, n: u32)
    ensures
        forall|x: u32| #[trigger] without(s, n).contains(x) <==> (s.contains(x) && x != n),
        s.no_duplicates() ==> without(s, n).no_duplicates(),
    decreases s.len(),
{
    if s.len() == 0 {
    } else {
        lemma_without(s.drop_last(), n);
        let a = without(s.drop_last(), n);
        assert forall|x: u32| #[trigger] without(s, n).contains(x) implies (s.contains(x) && x
            != n) by {
            let k = choose|k: int| 0 <= k < without(s, n).len() && without(s, n)[k] == x;
            if k < a.len() {
                assert(a[k] == x);
                assert(a.contains(x));
                let i = choose|i: int| 0 <= i < s.drop_last().len() && s.drop_last()[i] == x;
                assert(s[i] == x);
            } else {
                assert(x == s.last());
                assert(s[s.len() - 1] == x);
            }
        }
        assert forall|x: u32| s.contains(x) && x != n implies #[trigger] without(s, n).contains(
            x,
        ) by {
            let i = choose|i: int| 0 <= i < s.len() && s[i] == x;
            if i < s.len() - 1 {
                assert(s.drop_last()[i] == x);
                assert(s.drop_last().contains(x));
                assert(a.contains(x));
                let k = choose|k: int| 0 <= k < a.len() && a[k] == x;
                assert(without(s, n)[k] == x);
            } else {
                assert(s.last() == x);
                assert(without(s, n)[without(s, n).len() - 1] == x);
            }
        }
        if s.no_duplicates() {
            assert(s.drop_last().no_duplicates()) by {
                assert(forall|i: int, j: int|
                    0 <= i < s.drop_last().len() && 0 <= j < s.drop_last().len() && i != j
                        ==> s.drop_last()[i] != s.drop_last()[j]);
            }
            if s.last() == n {
            } else {
                assert(!a.contains(s.last())) by {
                    if a.contains(s.last()) {
                        assert(s.drop_last().contains(s.last()));
                        let i = choose|i: int|
                            0 <= i < s.drop_last().len() && s.drop_last()[i] == s.last();
                        assert(s[i] == s[s.len() - 1]);
                    }
                }
                assert forall|i: int, j: int|
                    0 <= i < without(s, n).len() && 0 <= j < without(s, n).len() && i
                        != j implies without(s, n)[i] != without(s, n)[j] by {
                    if i < a.len() && j < a.len() {
                    } else if i < a.len() {
                        assert(a[i] == without(s, n)[i]);
                        assert(without(s, n)[j] == s.last());
                        if a[i] == s.last() {
                            assert(a.contains(s.last()));
                        }
                    } else if j < a.len() {
                        assert(a[j] == without(s, n)[j]);
                        assert(without(s, n)[i] == s.last());
                        if a[j] == s.last() {
                            assert(a.contains(s.last()));
                        }
                    }
                }
            }
        }
    }
}

/// The manager a lock request leaves behind: the matching instance's flag is
/// set and its number joins the locked roster once; unknown numbers change
/// nothing.  Idempotent: locking a locked instance changes nothing.
pub open spec fn spec_lock(v: ManagerView, num: u32) -> ManagerView {
    let idx = find_num(v.instances, num);
    if idx == v.instances.len() {
        v
    } else {
        ManagerView {
            instances: v.instances.update(
                idx,
                Instance { locked: true, ..v.instances[idx] },
            ),
            locked: if v.locked.contains(num) {
                v.locked
            } else {
                v.locked.push(num)
            },
            ..v
        }
    }
}

/// The manager an unlock request leaves behind; idempotent, unknown numbers
/// change nothing.
pub open spec fn spec_unlock(v: ManagerView, num: u32) -> ManagerView {
    let idx = find_num(v.instances, num);
    if idx == v.instances.len() {
        v
    } else {
        ManagerView {
            instances: v.instances.update(
                idx,
                Instance { locked: false, ..v.instances[idx] },
            ),
            locked: without(v.locked, num),
            ..v
        }
    }
}

/// The instance numbers of the idle, unlocked instances, in roster order.
pub open spec fn unlocked_idle(s: Seq<Instance>) -> Seq<u32>
    decreases s.len(),
{
    if s.len() == 0 {
        Seq::empty()
    } else {
        unlocked_idle(s.drop_last()) + (if s.last().state is Idle && !s.last().locked {
            seq![s.last().instance_info.instance_num]
        } else {
            Seq::empty()
        })
    }
}

/// Index of the first roster entry in `Playing`; the roster length when none
/// is.
pub open spec fn first_playing(s: Seq<Instance>) -> int
    decreases s.len(),
{
    if s.len() == 0 {
        0
    } else if s[0].state is Playing {
        0
    } else {
        1 + first_playing(s.drop_first())
    }
}

pub proof fn lemma_first_playing(s: Seq<Instance>)
    ensures
        0 <= first_playing(s) <= s.len(),
        first_playing(s) < s.len() ==> s[first_playing(s)].state is Playing,
        forall|j: int| 0 <= j < first_playing(s) ==> !((#[trigger] s[j]).state is Playing),
    decreases s.len(),
{
    if s.len() == 0 {
    } else if s[0].state is Playing {
    } else {
        lemma_first_playing(s.drop_first());
        assert forall|j: int| 0 <= j < first_playing(s) implies !((#[trigger] s[j]).state
            is Playing) by {
            if j > 0 {
                assert(s.drop_first()[j - 1] == s[j]);
            }
        }
    }
}

/// The number of the playing instance, when there is one.
pub open spec fn spec_playing_num(s: Seq<Instance>) -> Option<u32> {
    if first_playing(s) == s.len() {
        None
    } else {
        Some(s[first_playing(s)].instance_info.instance_num)
    }
}

/// The first locked instance, in lock order, that is idle.
pub open spec fn first_idle_locked(s: Seq<Instance>, locked: Seq<u32>) -> Option<u32>
    decreases locked.len(),
{
    if locked.len() == 0 {
        None
    } else {
        let idx = find_num(s, locked[0]);
        if idx < s.len() && s[idx].state is Idle {
            Some(locked[0])
        } else {
            first_idle_locked(s, locked.drop_first())
        }
    }
}

impl InstanceManager {
    /// Builds the manager from the discovery results: one fresh instance per
    /// entry, every one queued for admission in discovery order.
    #[verifier::loop_isolation(false)]
    pub fn initialize(infos: Vec<InstanceInfo>) -> (r: InstanceManager)
        requires
            nums_of_infos(infos@).no_duplicates(),
            forall|i: int| 0 <= i < infos@.len() ==> (#[trigger] infos@[i]).instance_num < 32,
        ensures
            r@.instances == infos@.map_values(|info: InstanceInfo| spec_new_instance(info)),
            r@.slots == somes(nums_of_infos(infos@)),
            r@.bag == 4,
            r@.locked == Seq::<u32>::empty(),
            r@.inflight == Seq::<u32>::empty(),
            r@.wf(),
    {
        let ghost infos0 = infos@;
        let mut infos = infos;
        let mut m = InstanceManager {
            instances: Vec::new(),
            reset_inflight: Vec::new(),
            preview_unlocked_wall_queue: WallQueue::new(),
            locked_instances: Vec::new(),
        };
        let ghost target = infos0.map_values(|info: InstanceInfo| spec_new_instance(info));
        let mut i: usize = 0;
        let n = infos.len();
        while i < n
            invariant
                i <= n,
                infos@ == infos0.subrange(i as int, n as int),
                m@.instances == target.subrange(0, i as int),
                m@.slots == somes(nums_of_infos(infos0.subrange(0, i as int))),
                m@.bag == 4,
                m@.locked == Seq::<u32>::empty(),
                m@.inflight == Seq::<u32>::empty(),
            decreases n - i,
        {
            let info = infos.remove(0);
            assert(info == infos0[i as int]);
            let num = info.instance_num;
            let inst = Instance::new(info);
            m.instances.push(inst);
            m.preview_unlocked_wall_queue.push(num);
            proof {
                assert(infos@ =~= infos0.subrange(i + 1, n as int));
                assert(m@.instances =~= target.subrange(0, i + 1));
                assert(nums_of_infos(infos0.subrange(0, i + 1)) =~= nums_of_infos(
                    infos0.subrange(0, i as int),
                ).push(num));
                assert(m@.slots =~= somes(nums_of_infos(infos0.subrange(0, i + 1))));
            }
            i += 1;
        }
        proof {
            assert(infos0.subrange(0, n as int) =~= infos0);
            assert(target.subrange(0, n as int) =~= target);
            let nums = nums_of_infos(infos0);
            crate::wall_queue::lemma_live_somes(nums);
            assert(nums_of(target) =~= nums);
            assert forall|x: u32| live(m@.slots).contains(x) implies nums_of(
                m@.instances,
            ).contains(x) by {}
            assert forall|i2: int|
                0 <= i2 < m@.instances.len() implies ((#[trigger] m@.instances[i2]).locked
                <==> m@.locked.contains(m@.instances[i2].instance_info.instance_num)) by {
                assert(!m@.instances[i2].locked);
            }
        }
        m
    }

    /// Pins the instance out of automatic bag rotation: sets its flag and
    /// records it on the locked roster once.  Idempotent; returns whether the
    /// number was known.
    pub fn lock(&mut self, instance_num: u32) -> (found: bool)
        requires
            old(self)@.wf(),
        ensures
            found == nums_of(old(self)@.instances).contains(instance_num),
            final(self)@ == spec_lock(old(self)@, instance_num),
            final(self)@.wf(),
    {
        let ghost v0 = self@;
        proof {
            lemma_find_num(v0.instances, instance_num);
        }
        let idx = match self.get_instance_by_instance_num(instance_num) {
            Some(i) => i,
            None => {
                return false;
            },
        };
        let inst = inst_at(&mut self.instances, idx);
        inst.lock();
        if !contains_u32(&self.locked_instances, instance_num) {
            self.locked_instances.push(instance_num);
        }
        proof {
            lemma_wf_after_lock(v0, instance_num);
            assert(self@ == spec_lock(v0, instance_num));
        }
        true
    }

    /// Returns the instance to automatic bag rotation: clears its flag and
    /// drops it from the locked roster.  Idempotent; returns whether the
    /// number was known.
    #[verifier::loop_isolation(false)]
    pub fn unlock(&mut self, instance_num: u32) -> (found: bool)
        requires
            old(self)@.wf(),
        ensures
            found == nums_of(old(self)@.instances).contains(instance_num),
            final(self)@ == spec_unlock(old(self)@, instance_num),
            final(self)@.wf(),
    {
        let ghost v0 = self@;
        proof {
            lemma_find_num(v0.instances, instance_num);
        }
        let idx = match self.get_instance_by_instance_num(instance_num) {
            Some(i) => i,
            None => {
                return false;
            },
        };
        let inst = inst_at(&mut self.instances, idx);
        inst.unlock();
        let mut kept: Vec<u32> = Vec::new();
        let mut k: usize = 0;
        let ghost locked0 = v0.locked;
        let n = self.locked_instances.len();
        while k < n
            invariant
                k <= n,
                kept@ == without(locked0.subrange(0, k as int), instance_num),
                self.locked_instances@ == locked0,
            decreases n - k,
        {
            proof {
                assert(locked0.subrange(0, k + 1).drop_last() =~= locked0.subrange(0, k as int));
            }
            let x = self.locked_instances[k];
            if x != instance_num {
                kept.push(x);
            }
            proof {
                assert(kept@ =~= without(locked0.subrange(0, k + 1), instance_num));
            }
            k += 1;
        }
        self.locked_instances = kept;
        proof {
            assert(locked0.subrange(0, n as int) =~= locked0);
            lemma_wf_after_unlock(v0, instance_num);
            assert(self@ == spec_unlock(v0, instance_num));
        }
        true
    }

    /// Admits a preview-ready instance into the queue; already queued or
    /// unknown numbers change nothing.  Returns whether the number was known.
    pub fn on_preview_ready(&mut self, instance_num: u32) -> (found: bool)
        requires
            old(self)@.wf(),
        ensures
            found == nums_of(old(self)@.instances).contains(instance_num),
            found && !live(old(self)@.slots).contains(instance_num) ==> final(self)@
                == (ManagerView { slots: old(self)@.slots.push(Some(instance_num)), ..old(self)@ }),
            found && live(old(self)@.slots).contains(instance_num) ==> final(self)@ == old(self)@,
            !found ==> final(self)@ == old(self)@,
            final(self)@.wf(),
    {
        let ghost v0 = self@;
        proof {
            lemma_find_num(v0.instances, instance_num);
        }
        match self.get_instance_by_instance_num(instance_num) {
            Some(_) => {},
            None => {
                return false;
            },
        }
        if !self.preview_unlocked_wall_queue.contains_num(instance_num) {
            self.preview_unlocked_wall_queue.push(instance_num);
            proof {
                lemma_wf_after_ready(v0, instance_num);
            }
        }
        true
    }

    /// The idle, unlocked instances, by number, in roster order.
    #[verifier::loop_isolation(false)]
    pub fn get_unlocked_idle_instances(&self) -> (r: Vec<u32>)
        ensures
            r@ == unlocked_idle(self@.instances),
    {
        let mut r: Vec<u32> = Vec::new();
        let mut i: usize = 0;
        let n = self.instances.len();
        while i < n
            invariant
                i <= n,
                r@ == unlocked_idle(self@.instances.subrange(0, i as int)),
            decreases n - i,
        {
            proof {
                assert(self@.instances.subrange(0, i + 1).drop_last() =~= self@.instances.subrange(
                    0,
                    i as int,
                ));
            }
            let idle = match self.instances[i].state {
                InstanceState::Idle => true,
                _ => false,
            };
            if idle && !self.instances[i].locked {
                r.push(self.instances[i].instance_info.instance_num);
            }
            proof {
                assert(r@ =~= unlocked_idle(self@.instances.subrange(0, i + 1)));
            }
            i += 1;
        }
        proof {
            assert(self@.instances.subrange(0, n as int) =~= self@.instances);
        }
        r
    }

    /// Index of the first playing roster entry.
    #[verifier::loop_isolation(false)]
    pub(crate) fn playing_index(&self) -> (r: Option<usize>)
        ensures
            match r {
                Some(i) => i == first_playing(self@.instances) && i < self@.instances.len(),
                None => first_playing(self@.instances) == self@.instances.len(),
            },
    {
        proof {
            lemma_first_playing(self@.instances);
        }
        let mut i: usize = 0;
        let n = self.instances.len();
        while i < n
            invariant
                i <= n,
                forall|j: int| 0 <= j < i ==> !((#[trigger] self@.instances[j]).state is Playing),
            decreases n - i,
        {
            let playing = match self.instances[i].state {
                InstanceState::Playing => true,
                _ => false,
            };
            if playing {
                proof {
                    if i < first_playing(self@.instances) {
                        assert(!(self@.instances[i as int].state is Playing));
                    }
                    if first_playing(self@.instances) < i {
                        assert(self@.instances[first_playing(self@.instances)].state is Playing);
                    }
                }
                return Some(i);
            }
            i += 1;
        }
        None
    }

    /// The number of the playing instance, when there is one.  At most one
    /// instance plays at a time by caller convention; the first in roster
    /// order is returned.
    pub fn get_playing_instance(&self) -> (r: Option<u32>)
        ensures
            r == spec_playing_num(self@.instances),
    {
        match self.playing_index() {
            Some(i) => Some(self.instances[i].instance_info.instance_num),
            None => None,
        }
    }

    /// The first locked instance, in lock order, that is idle: the candidate
    /// to play next while nothing plays.
    #[verifier::loop_isolation(false)]
    pub fn get_first_idle_locked_instance(&self) -> (r: Option<u32>)
        ensures
            r == first_idle_locked(self@.instances, self@.locked),
    {
        let ghost s = self@.instances;
        let ghost locked0 = self@.locked;
        let mut k: usize = 0;
        let n = self.locked_instances.len();
        proof {
            assert(locked0.subrange(0, n as int) =~= locked0);
        }
        while k < n
            invariant
                k <= n,
                first_idle_locked(s, locked0.subrange(k as int, n as int)) == first_idle_locked(
                    s,
                    locked0,
                ),
            decreases n - k,
        {
            let num = self.locked_instances[k];
            proof {
                assert(locked0.subrange(k as int, n as int)[0] == num);
                assert(locked0.subrange(k as int, n as int).drop_first() =~= locked0.subrange(
                    k + 1,
                    n as int,
                ));
                lemma_find_num(s, num);
            }
            match self.get_instance_by_instance_num(num) {
                Some(i) => {
                    let idle = match self.instances[i].state {
                        InstanceState::Idle => true,
                        _ => false,
                    };
                    if idle {
                        return Some(num);
                    }
                },
                None => {},
            }
            k += 1;
        }
        proof {
            assert(locked0.subrange(n as int, n as int) =~= Seq::<u32>::empty());
        }
        None
    }
}

proof fn lemma_wf_after_lock(v: ManagerView, num: u32)
    requires
        v.wf(),
    ensures
        spec_lock(v, num).wf(),
{
    lemma_find_num(v.instances, num);
    let idx = find_num(v.instances, num);
    if idx < v.instances.len() {
        let v1 = spec_lock(v, num);
        assert(nums_of(v1.instances) =~= nums_of(v.instances));
        if !v.locked.contains(num) {
            assert forall|x: u32| v1.locked.contains(x) implies nums_of(v1.instances).contains(
                x,
            ) by {
                let k = choose|k: int| 0 <= k < v1.locked.len() && v1.locked[k] == x;
                if k < v.locked.len() {
                    assert(v.locked.contains(x));
                } else {
                    assert(x == num);
                }
            }
            assert(v1.locked.no_duplicates());
        }
        assert forall|i: int|
            0 <= i < v1.instances.len() implies ((#[trigger] v1.instances[i]).locked
            <==> v1.locked.contains(v1.instances[i].instance_info.instance_num)) by {
            let ni = v1.instances[i].instance_info.instance_num;
            if i == idx {
                if !v.locked.contains(num) {
                    assert(v1.locked[v1.locked.len() - 1] == num);
                }
            } else {
                assert(v1.instances[i] == v.instances[i]);
                assert(nums_of(v.instances)[i] != nums_of(v.instances)[idx]);
                if !v.locked.contains(num) {
                    if v1.locked.contains(ni) {
                        let k = choose|k: int| 0 <= k < v1.locked.len() && v1.locked[k] == ni;
                        if k < v.locked.len() {
                            assert(v.locked[k] == ni);
                        } else {
                            assert(ni == num);
                        }
                    }
                    if v.locked.contains(ni) {
                        let k = choose|k: int| 0 <= k < v.locked.len() && v.locked[k] == ni;
                        assert(v1.locked[k] == ni);
                    }
                }
            }
        }
    }
}

proof fn lemma_wf_after_unlock(v: ManagerView, num: u32)
    requires
        v.wf(),
    ensures
        spec_unlock(v, num).wf(),
{
    lemma_find_num(v.instances, num);
    lemma_without(v.locked, num);
    let idx = find_num(v.instances, num);
    if idx < v.instances.len() {
        let v1 = spec_unlock(v, num);
        assert(nums_of(v1.instances) =~= nums_of(v.instances));
        assert forall|i: int|
            0 <= i < v1.instances.len() implies ((#[trigger] v1.instances[i]).locked
            <==> v1.locked.contains(v1.instances[i].instance_info.instance_num)) by {
            if i != idx {
                assert(v1.instances[i] == v.instances[i]);
                assert(nums_of(v.instances)[i] != nums_of(v.instances)[idx]);
            }
        }
    }
}

proof fn lemma_wf_after_ready(v: ManagerView, num: u32)
    requires
        v.wf(),
        nums_of(v.instances).contains(num),
        !live(v.slots).contains(num),
    ensures
        (ManagerView { slots: v.slots.push(Some(num)), ..v }).wf(),
{
    let s1 = v.slots.push(Some(num));
    assert(s1.drop_last() =~= v.slots);
    assert(live(s1) =~= live(v.slots).push(num));
    assert forall|i: int, j: int|
        0 <= i < live(s1).len() && 0 <= j < live(s1).len() && i != j implies live(s1)[i] != live(
        s1,
    )[j] by {
        if i < live(v.slots).len() && j < live(v.slots).len() {
        } else if i < live(v.slots).len() {
            if live(v.slots)[i] == num {
                assert(live(v.slots).contains(num));
            }
        } else if j < live(v.slots).len() {
            if live(v.slots)[j] == num {
                assert(live(v.slots).contains(num));
            }
        }
    }
    assert forall|x: u32| live(s1).contains(x) implies nums_of(v.instances).contains(x) by {
        let k = choose|k: int| 0 <= k < live(s1).len() && live(s1)[k] == x;
        if k < live(v.slots).len() {
            assert(live(v.slots).contains(x));
        } else {
            assert(x == num);
        }
    }
}


proof fn lemma_reset_many_keeps_resetting(v: ManagerView, nums: Seq<u32>, idx: int)
    requires
        0 <= idx < v.instances.len(),
        v.instances[idx].state is Resetting,
    ensures
        spec_reset_many(v, nums).instances.len() == v.instances.len(),
        spec_reset_many(v, nums).instances[idx].state is Resetting,
    decreases nums.len(),
{
    if nums.len() > 0 {
        let v1 = spec_reset_one(v, nums[0]);
        let idx0 = find_num(v.instances, nums[0]);
        lemma_find_num(v.instances, nums[0]);
        if idx0 < v.instances.len() {
            assert(v1.instances.len() == v.instances.len());
            assert(v1.instances[idx].state is Resetting);
        }
        lemma_reset_many_keeps_resetting(v1, nums.drop_first(), idx);
    }
}

/// Resetting a batch leaves every member of it in `Resetting`: releasing a
/// bag resets all its members.
pub proof fn lemma_bag_members_reset(v: ManagerView, nums: Seq<u32>)
    ensures
        spec_reset_many(v, nums).instances.len() == v.instances.len(),
        forall|k: int|
            0 <= k < nums.len() && find_num(v.instances, #[trigger] nums[k]) < v.instances.len()
                ==> spec_reset_many(v, nums).instances[find_num(v.instances, nums[k])].state
                is Resetting,
    decreases nums.len(),
{
    if nums.len() > 0 {
        let v1 = spec_reset_one(v, nums[0]);
        lemma_find_num(v.instances, nums[0]);
        assert(v1.instances.len() == v.instances.len());
        assert forall|i: int|
            0 <= i < v.instances.len() implies (#[trigger] v.instances[i]).instance_info.instance_num
            == v1.instances[i].instance_info.instance_num by {}
        lemma_bag_members_reset(v1, nums.drop_first());
        assert forall|k: int|
            0 <= k < nums.len() && find_num(v.instances, #[trigger] nums[k])
                < v.instances.len() implies spec_reset_many(v, nums).instances[find_num(
            v.instances,
            nums[k],
        )].state is Resetting by {
            let idx = find_num(v.instances, nums[k]);
            if k == 0 {
                assert(v1.instances[idx].state is Resetting);
                lemma_reset_many_keeps_resetting(v1, nums.drop_first(), idx);
            } else {
                lemma_find_num_congruence(v.instances, v1.instances, nums[k]);
                assert(nums.drop_first()[k - 1] == nums[k]);
            }
        }
    }
}

/// Batch resets touch only the roster's lifecycle fields and the in-flight
/// records: the queue and both rosters' numbers are left alone.
pub proof fn lemma_reset_many_frame(v: ManagerView, nums: Seq<u32>)
    ensures
        spec_reset_many(v, nums).slots == v.slots,
        spec_reset_many(v, nums).bag == v.bag,
        spec_reset_many(v, nums).locked == v.locked,
        spec_reset_many(v, nums).instances.len() == v.instances.len(),
    decreases nums.len(),
{
    if nums.len() > 0 {
        let v1 = spec_reset_one(v, nums[0]);
        lemma_find_num(v.instances, nums[0]);
        lemma_reset_many_frame(v1, nums.drop_first());
    }
}

} // verus!
