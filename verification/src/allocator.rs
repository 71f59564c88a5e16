//! The resource allocator: a pure decision over the manager's snapshot that
//! redistributes CPU affinity.
//!
//! With one instance playing, it gets the wide mask; idle and previewing
//! instances get the minimal mask; resetting and loading instances get a
//! small-but-larger allocation, since resets are latency-sensitive.  With
//! nothing playing, every instance gets the minimal two-thread lane and the
//! first locked-and-idle instance is granted a wide allocation in
//! anticipation of being played next.  Each run is idempotent: an instance
//! whose cached allocation already matches is skipped.

use crate::instance::{
    spec_set_affinity_action, spec_set_affinity_state, spec_set_threadcount_action,
    spec_set_threadcount_state, AffinityApply, Instance,
};
use crate::manager::{first_idle_locked, first_playing, lemma_find_num_congruence, InstanceManager, ManagerView};
use crate::state::InstanceState;
use vstd::prelude::*;

verus! {

/// The wide mask granted to the playing (or anticipated) instance:
/// twenty-eight execution units above the low four.
pub const WIDE_MASK: u64 = 0xFFFFFFF0;

/// The minimal mask for instances that only wait: the low four execution
/// units.
pub const MIN_MASK: u64 = 0xF;

/// Thread count for instances busy resetting or loading.
pub const BUSY_THREADS: u32 = 15;

/// Thread count for everyone while nothing plays: a two-thread lane per
/// instance.
pub const MIN_THREADS: u32 = 2;

/// Thread count standing for a wide allocation.
pub const WIDE_THREADS: u32 = 30;

/// The allocator's decision for one instance.
pub enum Directive {
    /// Record this affinity mask directly.
    Mask(u64),
    /// Record this thread count and the mask derived from it.
    Threads(u32),
    /// Leave the instance alone.
    Skip,
}

/// The allocator's decision for the instance at index `i` of the snapshot.
pub open spec fn spec_directive(s: Seq<Instance>, locked: Seq<u32>, i: int) -> Directive {
    let p = first_playing(s);
    if p < s.len() {
        if i == p {
            Directive::Mask(WIDE_MASK)
        } else if s[i].state is Idle || s[i].state is Preview {
            Directive::Mask(MIN_MASK)
        } else if s[i].state is Resetting || s[i].state is LoadingScreen {
            Directive::Threads(BUSY_THREADS)
        } else {
            Directive::Skip
        }
    } else {
        if first_idle_locked(s, locked) == Some(s[i].instance_info.instance_num) {
            Directive::Threads(WIDE_THREADS)
        } else {
            Directive::Threads(MIN_THREADS)
        }
    }
}

pub open spec fn spec_apply_directive_state(inst: Instance, d: Directive) -> Instance {
    match d {
        Directive::Mask(m) => spec_set_affinity_state(inst, m),
        Directive::Threads(t) => spec_set_threadcount_state(inst, t),
        Directive::Skip => inst,
    }
}

pub open spec fn spec_apply_directive_action(inst: Instance, d: Directive) -> Option<
    AffinityApply,
> {
    match d {
        Directive::Mask(m) => spec_set_affinity_action(inst, m),
        Directive::Threads(t) => spec_set_threadcount_action(inst, t),
        Directive::Skip => None,
    }
}

/// The roster one allocator run leaves behind.
pub open spec fn spec_alloc_state(s: Seq<Instance>, locked: Seq<u32>) -> Seq<Instance> {
    Seq::new(s.len(), |i: int| spec_apply_directive_state(s[i], spec_directive(s, locked, i)))
}

pub open spec fn opt_apply(o: Option<AffinityApply>) -> Seq<AffinityApply> {
    match o {
        Some(a) => seq![a],
        None => Seq::empty(),
    }
}

/// The resource-control calls one allocator run issues for the instances at
/// indices below `i`, in roster order.
pub open spec fn spec_alloc_actions(s: Seq<Instance>, locked: Seq<u32>, i: int) -> Seq<
    AffinityApply,
>
    decreases i,
{
    if i <= 0 {
        Seq::empty()
    } else {
        spec_alloc_actions(s, locked, i - 1) + opt_apply(
            spec_apply_directive_action(s[i - 1], spec_directive(s, locked, i - 1)),
        )
    }
}

impl InstanceManager {
    /// One allocator run: records the desired allocation for every instance
    /// and returns the resource-control calls that are actually needed —
    /// instances whose cached allocation already matches are skipped.
    #[verifier::loop_isolation(false)]
    pub fn update_affinities(&mut self) -> (r: Vec<AffinityApply>)
        requires
            old(self)@.wf(),
        ensures
            final(self)@.instances == spec_alloc_state(old(self)@.instances, old(self)@.locked),
            r@ == spec_alloc_actions(
                old(self)@.instances,
                old(self)@.locked,
                old(self)@.instances.len() as int,
            ),
            final(self)@.slots == old(self)@.slots,
            final(self)@.bag == old(self)@.bag,
            final(self)@.locked == old(self)@.locked,
            final(self)@.inflight == old(self)@.inflight,
            final(self)@.wf(),
    {
        let ghost v0 = self@;
        let ghost s0 = self@.instances;
        let ghost locked0 = self@.locked;
        let playing = self.playing_index();
        let favored = match playing {
            Some(_) => None,
            None => self.get_first_idle_locked_instance(),
        };
        let mut r: Vec<AffinityApply> = Vec::new();
        let mut i: usize = 0;
        let n = self.instances.len();
        while i < n
            invariant
                i <= n,
                n == s0.len(),
                self@.instances.len() == s0.len(),
                forall|k: int| i <= k < s0.len() ==> #[trigger] self@.instances[k] == s0[k],
                forall|k: int|
                    0 <= k < i ==> #[trigger] self@.instances[k] == spec_apply_directive_state(
                        s0[k],
                        spec_directive(s0, locked0, k),
                    ),
                r@ == spec_alloc_actions(s0, locked0, i as int),
                self@.slots == v0.slots,
                self@.bag == v0.bag,
                self@.locked == v0.locked,
                self@.inflight == v0.inflight,
            decreases n - i,
        {
            proof {
                assert(self@.instances[i as int] == s0[i as int]);
                assert(s0[i as int].instance_info.instance_num < 32);
            }
            let act: Option<AffinityApply>;
            match playing {
                Some(p) => {
                    if i == p {
                        act = inst_at_alloc(&mut self.instances, i).set_affinity(WIDE_MASK);
                    } else {
                        let st = self.instances[i].state;
                        match st {
                            InstanceState::Idle | InstanceState::Preview => {
                                act = inst_at_alloc(&mut self.instances, i).set_affinity(MIN_MASK);
                            },
                            InstanceState::Resetting | InstanceState::LoadingScreen => {
                                act = inst_at_alloc(&mut self.instances, i).set_threadcount(
                                    BUSY_THREADS,
                                );
                            },
                            InstanceState::Playing => {
                                act = None;
                            },
                        }
                    }
                },
                None => {
                    let is_favored = match favored {
                        Some(f) => f == self.instances[i].instance_info.instance_num,
                        None => false,
                    };
                    if is_favored {
                        act = inst_at_alloc(&mut self.instances, i).set_threadcount(WIDE_THREADS);
                    } else {
                        act = inst_at_alloc(&mut self.instances, i).set_threadcount(MIN_THREADS);
                    }
                },
            }
            proof {
                assert(self@.instances[i as int] == spec_apply_directive_state(
                    s0[i as int],
                    spec_directive(s0, locked0, i as int),
                ));
                assert(act == spec_apply_directive_action(
                    s0[i as int],
                    spec_directive(s0, locked0, i as int),
                ));
            }
            match act {
                Some(a) => {
                    r.push(a);
                },
                None => {},
            }
            proof {
                assert(r@ =~= spec_alloc_actions(s0, locked0, i + 1));
                assert forall|k: int| i + 1 <= k < s0.len() implies #[trigger] self@.instances[k]
                    == s0[k] by {}
            }
            i += 1;
        }
        proof {
            assert(self@.instances =~= spec_alloc_state(s0, locked0));
            lemma_alloc_preserves_wf(v0);
            assert(self@.wf());
        }
        r
    }
}

/// Mutable access to one roster entry.
fn inst_at_alloc<'a>(v: &'a mut Vec<Instance>, i: usize) -> (r: &'a mut Instance)
    requires
        i < old(v)@.len(),
    ensures
        *r == old(v)@[i as int],
        final(v)@ == old(v)@.update(i as int, *final(r)),
{
    &mut v[i]
}

/// A directive only touches the cached allocation: identity, lifecycle state
/// and the locked flag survive.
proof fn lemma_directive_preserves_identity(inst: Instance, d: Directive)
    ensures
        spec_apply_directive_state(inst, d).instance_info == inst.instance_info,
        spec_apply_directive_state(inst, d).state == inst.state,
        spec_apply_directive_state(inst, d).locked == inst.locked,
        spec_apply_directive_state(inst, d).thin == inst.thin,
        spec_apply_directive_state(inst, d).preview_percent == inst.preview_percent,
        spec_apply_directive_state(inst, d).has_sent_percent == inst.has_sent_percent,
{
}

proof fn lemma_alloc_preserves_wf(v: ManagerView)
    requires
        v.wf(),
    ensures
        (ManagerView { instances: spec_alloc_state(v.instances, v.locked), ..v }).wf(),
{
    let s1 = spec_alloc_state(v.instances, v.locked);
    let v1 = ManagerView { instances: s1, ..v };
    assert forall|i: int| 0 <= i < s1.len() implies (#[trigger] s1[i]).instance_info
        == v.instances[i].instance_info && s1[i].locked == v.instances[i].locked by {
        lemma_directive_preserves_identity(
            v.instances[i],
            spec_directive(v.instances, v.locked, i),
        );
    }
    assert(nums_of_alloc(v.instances, s1));
    assert(crate::manager::nums_of(s1) =~= crate::manager::nums_of(v.instances));
    assert forall|i: int|
        0 <= i < v1.instances.len() implies ((#[trigger] v1.instances[i]).locked
        <==> v1.locked.contains(v1.instances[i].instance_info.instance_num)) by {}
}

spec fn nums_of_alloc(a: Seq<Instance>, b: Seq<Instance>) -> bool {
    a.len() == b.len() && forall|i: int|
        0 <= i < a.len() ==> (#[trigger] b[i]).instance_info == a[i].instance_info
}

proof fn lemma_first_playing_congruence(a: Seq<Instance>, b: Seq<Instance>)
    requires
        a.len() == b.len(),
        forall|i: int| 0 <= i < a.len() ==> (#[trigger] a[i]).state == b[i].state,
    ensures
        first_playing(a) == first_playing(b),
    decreases a.len(),
{
    if a.len() > 0 {
        assert(a[0].state == b[0].state);
        assert forall|i: int|
            0 <= i < a.drop_first().len() implies (#[trigger] a.drop_first()[i]).state
            == b.drop_first()[i].state by {
            assert(a.drop_first()[i] == a[i + 1]);
            assert(b.drop_first()[i] == b[i + 1]);
        }
        lemma_first_playing_congruence(a.drop_first(), b.drop_first());
    }
}

proof fn lemma_first_idle_locked_congruence(a: Seq<Instance>, b: Seq<Instance>, locked: Seq<u32>)
    requires
        a.len() == b.len(),
        forall|i: int|
            0 <= i < a.len() ==> (#[trigger] a[i]).instance_info.instance_num
                == b[i].instance_info.instance_num,
        forall|i: int| 0 <= i < a.len() ==> (#[trigger] a[i]).state == b[i].state,
    ensures
        first_idle_locked(a, locked) == first_idle_locked(b, locked),
    decreases locked.len(),
{
    if locked.len() > 0 {
        lemma_find_num_congruence(a, b, locked[0]);
        crate::manager::lemma_find_num(a, locked[0]);
        lemma_first_idle_locked_congruence(a, b, locked.drop_first());
    }
}

proof fn lemma_alloc_actions_all_none(s: Seq<Instance>, locked: Seq<u32>, i: int)
    requires
        forall|k: int|
            0 <= k < i ==> #[trigger] spec_apply_directive_action(
                s[k],
                spec_directive(s, locked, k),
            ) is None,
    ensures
        spec_alloc_actions(s, locked, i).len() == 0,
    decreases i,
{
    if i > 0 {
        lemma_alloc_actions_all_none(s, locked, i - 1);
    }
}

/// The allocator is idempotent: running it again on the roster it just left,
/// with no intervening state change, issues no resource-control calls at
/// all.
pub proof fn lemma_allocator_idempotent(s: Seq<Instance>, locked: Seq<u32>)
    ensures
        spec_alloc_actions(spec_alloc_state(s, locked), locked, s.len() as int).len() == 0,
{
    let s1 = spec_alloc_state(s, locked);
    assert forall|i: int| 0 <= i < s.len() implies (#[trigger] s1[i]).state == s[i].state && s1[
        i].instance_info.instance_num == s[i].instance_info.instance_num by {
        lemma_directive_preserves_identity(s[i], spec_directive(s, locked, i));
    }
    lemma_first_playing_congruence(s, s1);
    lemma_first_idle_locked_congruence(s, s1, locked);
    assert forall|k: int|
        0 <= k < s.len() implies #[trigger] spec_apply_directive_action(
        s1[k],
        spec_directive(s1, locked, k),
    ) is None by {
        crate::manager::lemma_first_playing(s);
        assert(spec_directive(s1, locked, k) == spec_directive(s, locked, k));
        let d = spec_directive(s, locked, k);
        lemma_directive_preserves_identity(s[k], d);
        match d {
            Directive::Mask(m) => {
                assert(s1[k] == spec_set_affinity_state(s[k], m));
                assert(s1[k].affinity_mask == m);
            },
            Directive::Threads(t) => {
                assert(s1[k] == spec_set_threadcount_state(s[k], t));
                assert(s1[k].thread_count == t);
            },
            Directive::Skip => {},
        }
    }
    lemma_alloc_actions_all_none(s1, locked, s.len() as int);
}

} // verus!
