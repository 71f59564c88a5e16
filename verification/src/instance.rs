//! One managed game instance: identity, lifecycle state, and the decisions
//! of its reset protocol.
//!
//! The reset protocol is a polling loop: each poll reads the progress marker
//! the game most recently wrote and decides the next state and the events to
//! deliver.  The loop itself (sleeping, reading the marker, watching the
//! cancellation channel, sending on the notification channels) runs outside
//! the library; `reset_begin` and `reset_poll` are the decisions it carries
//! out.

use crate::state::InstanceState;
use crate::text::{
    contains_seq, generating_marker, inworld_marker, marker_has_generating, marker_has_inworld,
    marker_has_previewing, parse_percent, previewing_marker, spec_parse_percent,
};
use vstd::prelude::*;

verus! {

/// Identity of a discovered game window, held as plain values.
pub struct InstanceInfo {
    /// Window handle of the game window.
    pub window: u32,
    /// Process id of the game process.
    pub pid: u32,
    /// Instance directory path, as bytes.
    pub gamedir: Vec<u8>,
    /// Stable number assigned at discovery; unique across the roster.
    pub instance_num: u32,
}

/// One managed game instance.
pub struct Instance {
    pub instance_info: InstanceInfo,
    /// Lifecycle state, the single source of truth for scheduling.
    pub state: InstanceState,
    /// The operator has pinned this instance out of automatic bag rotation.
    pub locked: bool,
    /// Display-mode toggle, independent of the lifecycle state.
    pub thin: bool,
    /// Last thread count handed to the resource-control collaborator.
    pub thread_count: u32,
    /// Last affinity mask handed to the resource-control collaborator.
    pub affinity_mask: u64,
    /// Progress watermark observed while in `Preview`.
    pub preview_percent: u32,
    /// One-shot flag: the percent-threshold notification went out this cycle.
    pub has_sent_percent: bool,
}

/// What one poll of the reset loop asks the surrounding task to do.
#[derive(Clone, Copy, Debug, PartialEq, Eq)]
pub struct PollEvents {
    /// Send the menu-dismiss key sequence to the game window.
    pub dismiss_menu: bool,
    /// Send this instance number on the preview-ready channel.
    pub preview_ready: Option<u32>,
    /// Send this percentage on the percent-threshold channel.
    pub percent: Option<u32>,
    /// The reset loop is finished and the task should stop polling.
    pub done: bool,
}

/// The outcome of a poll that asks for nothing and keeps polling.
pub open spec fn no_events() -> PollEvents {
    PollEvents { dismiss_menu: false, preview_ready: None, percent: None, done: false }
}

/// State after a reset request: `Resetting`, with the percent watermark
/// cleared; every other field is kept.
pub open spec fn spec_reset_begin_state(pre: Instance) -> Instance {
    Instance { state: InstanceState::Resetting, has_sent_percent: false, ..pre }
}

/// Whether a reset request must send the reset-initiation signal: a request
/// arriving while a cycle is already in `Resetting` or `LoadingScreen` takes
/// the cycle over without re-initiating.
pub open spec fn spec_reset_begin_emits(pre: Instance) -> bool {
    !(pre.state is Resetting || pre.state is LoadingScreen)
}

/// The state one poll leaves the instance in, given the marker text.
pub open spec fn spec_poll_state(pre: Instance, m: Seq<u8>) -> Instance {
    if pre.state is Resetting {
        if contains_seq(m, generating_marker()) {
            Instance { state: InstanceState::LoadingScreen, ..pre }
        } else {
            pre
        }
    } else if pre.state is LoadingScreen {
        if contains_seq(m, previewing_marker()) {
            Instance { state: InstanceState::Preview, ..pre }
        } else {
            pre
        }
    } else if pre.state is Preview {
        if contains_seq(m, previewing_marker()) && !pre.has_sent_percent {
            match spec_parse_percent(m) {
                Some(p) => if p > 80 {
                    Instance { preview_percent: p, has_sent_percent: true, ..pre }
                } else {
                    Instance { preview_percent: p, ..pre }
                },
                None => pre,
            }
        } else if contains_seq(m, inworld_marker()) {
            Instance { state: InstanceState::Idle, ..pre }
        } else {
            pre
        }
    } else {
        pre
    }
}

/// The events one poll delivers, given the marker text.
pub open spec fn spec_poll_events(pre: Instance, m: Seq<u8>) -> PollEvents {
    if pre.state is Resetting {
        no_events()
    } else if pre.state is LoadingScreen {
        if contains_seq(m, previewing_marker()) {
            PollEvents {
                dismiss_menu: true,
                preview_ready: Some(pre.instance_info.instance_num),
                percent: None,
                done: false,
            }
        } else {
            no_events()
        }
    } else if pre.state is Preview {
        if contains_seq(m, previewing_marker()) && !pre.has_sent_percent {
            match spec_parse_percent(m) {
                Some(p) => if p > 80 {
                    PollEvents { dismiss_menu: false, preview_ready: None, percent: Some(p), done: false }
                } else {
                    no_events()
                },
                None => no_events(),
            }
        } else if contains_seq(m, inworld_marker()) {
            PollEvents { dismiss_menu: true, preview_ready: None, percent: None, done: true }
        } else {
            no_events()
        }
    } else {
        PollEvents { dismiss_menu: false, preview_ready: None, percent: None, done: true }
    }
}

/// The mask a thread count stands for: `thread_count` low bits, shifted to a
/// per-instance lane when the count is the minimal two.
pub open spec fn mask_for(thread_count: u32, instance_num: u32) -> u64 {
    let base = ((1u64 << (thread_count as u64)) - 1) as u64;
    if thread_count == 2 {
        base << ((instance_num * 2) as u64)
    } else {
        base
    }
}

/// One pending resource-control call: apply `affinity_mask` to the process of
/// instance `instance_num`.
#[derive(Clone, Copy, Debug, PartialEq, Eq, Structural)]
pub struct AffinityApply {
    pub instance_num: u32,
    pub affinity_mask: u64,
}

/// State after recording a desired affinity mask: unchanged when the cached
/// mask already matches, else the cache is updated.
pub open spec fn spec_set_affinity_state(pre: Instance, mask: u64) -> Instance {
    if pre.affinity_mask == mask {
        pre
    } else {
        Instance { affinity_mask: mask, ..pre }
    }
}

/// The resource-control call recording a mask asks for: nothing when the
/// cached mask already matches.
pub open spec fn spec_set_affinity_action(pre: Instance, mask: u64) -> Option<AffinityApply> {
    if pre.affinity_mask == mask {
        None
    } else {
        Some(AffinityApply { instance_num: pre.instance_info.instance_num, affinity_mask: mask })
    }
}

/// State after recording a thread count: skipped entirely when the cached
/// count matches, else the count is stored and the derived mask recorded.
pub open spec fn spec_set_threadcount_state(pre: Instance, tc: u32) -> Instance {
    if pre.thread_count == tc {
        pre
    } else {
        spec_set_affinity_state(
            Instance { thread_count: tc, ..pre },
            mask_for(tc, pre.instance_info.instance_num),
        )
    }
}

/// The resource-control call recording a thread count asks for.
pub open spec fn spec_set_threadcount_action(pre: Instance, tc: u32) -> Option<AffinityApply> {
    if pre.thread_count == tc {
        None
    } else {
        spec_set_affinity_action(
            Instance { thread_count: tc, ..pre },
            mask_for(tc, pre.instance_info.instance_num),
        )
    }
}

/// A freshly discovered instance: idle, unlocked, with cleared caches.
pub open spec fn spec_new_instance(instance_info: InstanceInfo) -> Instance {
    Instance {
        instance_info,
        state: InstanceState::Idle,
        locked: false,
        thin: false,
        thread_count: 0,
        affinity_mask: 0,
        preview_percent: 0,
        has_sent_percent: false,
    }
}

impl Instance {
    /// A freshly discovered instance: idle, unlocked, with cleared caches.
    pub fn new(instance_info: InstanceInfo) -> (r: Instance)
        ensures
            r == spec_new_instance(instance_info),
            r.instance_info == instance_info,
            r.state == InstanceState::Idle,
            !r.locked,
            !r.thin,
            r.thread_count == 0,
            r.affinity_mask == 0,
            r.preview_percent == 0,
            !r.has_sent_percent,
    {
        Instance {
            instance_info,
            state: InstanceState::Idle,
            locked: false,
            thin: false,
            thread_count: 0,
            affinity_mask: 0,
            preview_percent: 0,
            has_sent_percent: false,
        }
    }

    /// Starts (or takes over) a reset cycle: the instance enters `Resetting`
    /// and the percent watermark is cleared.  Returns whether the
    /// reset-initiation signal must be sent to the game; a request arriving
    /// mid-cycle takes the running cycle over without re-initiating.
    pub fn reset_begin(&mut self) -> (emit_reset_signal: bool)
        ensures
            *final(self) == spec_reset_begin_state(*old(self)),
            emit_reset_signal == spec_reset_begin_emits(*old(self)),
            final(self).state == InstanceState::Resetting,
            !final(self).has_sent_percent,
    {
        let emit = !(self.state == InstanceState::Resetting || self.state
            == InstanceState::LoadingScreen);
        self.state = InstanceState::Resetting;
        self.has_sent_percent = false;
        emit
    }

    /// One iteration of the reset polling loop, deciding on the marker text
    /// the game most recently reported.
    ///
    /// From `LoadingScreen`, only a marker containing `"previewing"` advances
    /// the instance — to `Preview`; any other marker leaves everything
    /// unchanged.  A percent-threshold event is emitted only from `Preview`,
    /// only when the marker's percentage exceeds 80, and only while the
    /// one-shot flag is still clear; emitting it sets the flag, and no poll
    /// ever clears the flag again.
    pub fn reset_poll(&mut self, marker: &[u8]) -> (events: PollEvents)
        ensures
            *final(self) == spec_poll_state(*old(self), marker@),
            events == spec_poll_events(*old(self), marker@),
            old(self).state == InstanceState::LoadingScreen ==> (final(self).state
                == InstanceState::Preview <==> contains_seq(marker@, previewing_marker())),
            old(self).state == InstanceState::LoadingScreen && !contains_seq(
                marker@,
                previewing_marker(),
            ) ==> *final(self) == *old(self) && events == no_events(),
            events.percent matches Some(p) ==> old(self).state == InstanceState::Preview
                && !old(self).has_sent_percent && spec_parse_percent(marker@) == Some(p) && p > 80
                && final(self).has_sent_percent,
            old(self).has_sent_percent ==> events.percent is None && final(self).has_sent_percent,
    {
        match self.state {
            InstanceState::Resetting => {
                if marker_has_generating(marker) {
                    self.state = InstanceState::LoadingScreen;
                }
                PollEvents { dismiss_menu: false, preview_ready: None, percent: None, done: false }
            },
            InstanceState::LoadingScreen => {
                if marker_has_previewing(marker) {
                    self.state = InstanceState::Preview;
                    PollEvents {
                        dismiss_menu: true,
                        preview_ready: Some(self.instance_info.instance_num),
                        percent: None,
                        done: false,
                    }
                } else {
                    PollEvents {
                        dismiss_menu: false,
                        preview_ready: None,
                        percent: None,
                        done: false,
                    }
                }
            },
            InstanceState::Preview => {
                if marker_has_previewing(marker) && !self.has_sent_percent {
                    match parse_percent(marker) {
                        Some(p) => {
                            self.preview_percent = p;
                            if p > 80 {
                                self.has_sent_percent = true;
                                PollEvents {
                                    dismiss_menu: false,
                                    preview_ready: None,
                                    percent: Some(p),
                                    done: false,
                                }
                            } else {
                                PollEvents {
                                    dismiss_menu: false,
                                    preview_ready: None,
                                    percent: None,
                                    done: false,
                                }
                            }
                        },
                        None => PollEvents {
                            dismiss_menu: false,
                            preview_ready: None,
                            percent: None,
                            done: false,
                        },
                    }
                } else if marker_has_inworld(marker) {
                    self.state = InstanceState::Idle;
                    PollEvents { dismiss_menu: true, preview_ready: None, percent: None, done: true }
                } else {
                    PollEvents {
                        dismiss_menu: false,
                        preview_ready: None,
                        percent: None,
                        done: false,
                    }
                }
            },
            _ => PollEvents { dismiss_menu: false, preview_ready: None, percent: None, done: true },
        }
    }

    /// Moves an idle instance to `Playing`; from any other state the attempt
    /// is silently ignored.  The caller performs the window-activation and
    /// fullscreen side effects only when `true` comes back.
    pub fn play(&mut self) -> (started: bool)
        ensures
            started == (old(self).state == InstanceState::Idle),
            started ==> *final(self) == (Instance { state: InstanceState::Playing, ..*old(self) }),
            !started ==> *final(self) == *old(self),
    {
        match self.state {
            InstanceState::Idle => {
                self.state = InstanceState::Playing;
                true
            },
            _ => false,
        }
    }

    /// Leaves play mode: reverses thin mode when it was active.  The
    /// lifecycle state is not changed here — the caller sets the instance
    /// back to `Idle` first and sends the fullscreen-exit signal afterwards.
    /// Returns whether thin mode was active and its window geometry must be
    /// undone.
    pub fn exit(&mut self) -> (was_thin: bool)
        ensures
            was_thin == old(self).thin,
            *final(self) == (Instance { thin: false, ..*old(self) }),
    {
        let was_thin = self.thin;
        self.thin = false;
        was_thin
    }

    /// Toggles the display-thinning flag and returns the new value; the
    /// caller applies the matching window geometry.
    pub fn thin(&mut self) -> (now_thin: bool)
        ensures
            *final(self) == (Instance { thin: !old(self).thin, ..*old(self) }),
            now_thin == !old(self).thin,
    {
        self.thin = !self.thin;
        self.thin
    }

    /// Pins the instance out of automatic bag rotation.  Idempotent.
    pub fn lock(&mut self)
        ensures
            *final(self) == (Instance { locked: true, ..*old(self) }),
    {
        self.locked = true;
    }

    /// Returns the instance to automatic bag rotation.  Idempotent.
    pub fn unlock(&mut self)
        ensures
            *final(self) == (Instance { locked: false, ..*old(self) }),
    {
        self.locked = false;
    }

    /// Records a thread count and the affinity mask derived from it, and
    /// returns the resource-control call the caller must make — nothing when
    /// the cached count already matches, so repeated allocation runs issue no
    /// redundant calls.
    pub fn set_threadcount(&mut self, thread_count: u32) -> (apply: Option<AffinityApply>)
        requires
            thread_count < 64,
            thread_count == 2 ==> old(self).instance_info.instance_num < 32,
        ensures
            *final(self) == spec_set_threadcount_state(*old(self), thread_count),
            apply == spec_set_threadcount_action(*old(self), thread_count),
    {
        if self.thread_count == thread_count {
            return None;
        }
        self.thread_count = thread_count;
        assert(1u64 << (thread_count as u64) >= 1) by (bit_vector)
            requires
                thread_count < 64,
        ;
        let base = (1u64 << (thread_count as u64)) - 1;
        let mask = if thread_count == 2 {
            base << ((self.instance_info.instance_num * 2) as u64)
        } else {
            base
        };
        self.set_affinity(mask)
    }

    /// Records a desired affinity mask and returns the resource-control call
    /// the caller must make — nothing when the cached mask already matches.
    pub fn set_affinity(&mut self, affinity_mask: u64) -> (apply: Option<AffinityApply>)
        ensures
            *final(self) == spec_set_affinity_state(*old(self), affinity_mask),
            apply == spec_set_affinity_action(*old(self), affinity_mask),
    {
        if self.affinity_mask == affinity_mask {
            return None;
        }
        self.affinity_mask = affinity_mask;
        Some(AffinityApply {
            instance_num: self.instance_info.instance_num,
            affinity_mask,
        })
    }
}

/// Once the one-shot flag is set, no later poll of the same cycle emits a
/// percent-threshold event, and the flag stays set.
pub proof fn lemma_percent_flag_persists(pre: Instance, m: Seq<u8>)
    requires
        pre.has_sent_percent,
    ensures
        spec_poll_events(pre, m).percent is None,
        spec_poll_state(pre, m).has_sent_percent,
{
}

/// Number of percent-threshold events emitted over a run of polls that feed
/// the markers `ms`, in order, to an instance starting at `pre`.
pub open spec fn count_percent_events(pre: Instance, ms: Seq<Seq<u8>>) -> int
    decreases ms.len(),
{
    if ms.len() == 0 {
        0
    } else {
        (if spec_poll_events(pre, ms[0]).percent is Some {
            1int
        } else {
            0int
        }) + count_percent_events(spec_poll_state(pre, ms[0]), ms.drop_first())
    }
}

proof fn lemma_flagged_counts_zero(pre: Instance, ms: Seq<Seq<u8>>)
    requires
        pre.has_sent_percent,
    ensures
        count_percent_events(pre, ms) == 0,
    decreases ms.len(),
{
    if ms.len() > 0 {
        lemma_percent_flag_persists(pre, ms[0]);
        lemma_flagged_counts_zero(spec_poll_state(pre, ms[0]), ms.drop_first());
    }
}

/// The percent-threshold notification fires at most once per reset cycle:
/// starting from the cleared flag that `reset_begin` leaves, any run of polls
/// emits at most one percent event.
pub proof fn lemma_percent_at_most_once(pre: Instance, ms: Seq<Seq<u8>>)
    requires
        !pre.has_sent_percent,
    ensures
        count_percent_events(pre, ms) <= 1,
    decreases ms.len(),
{
    if ms.len() > 0 {
        let post = spec_poll_state(pre, ms[0]);
        if spec_poll_events(pre, ms[0]).percent is Some {
            lemma_flagged_counts_zero(post, ms.drop_first());
        } else if post.has_sent_percent {
            lemma_flagged_counts_zero(post, ms.drop_first());
        } else {
            lemma_percent_at_most_once(post, ms.drop_first());
        }
    }
}

} // verus!
