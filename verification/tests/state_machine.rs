//! The instance lifecycle state machine, driven by progress markers.

use wallctl::instance::{Instance, InstanceInfo};
use wallctl::state::InstanceState;

fn fresh(num: u32) -> Instance {
    Instance::new(InstanceInfo {
        window: 100 + num,
        pid: 1000 + num,
        gamedir: format!("/instances/RSG {}/.minecraft", num).into_bytes(),
        instance_num: num,
    })
}

#[test]
fn reset_begin_from_idle_emits_signal() {
    let mut inst = fresh(1);
    let emit = inst.reset_begin();
    assert!(emit);
    assert_eq!(inst.state, InstanceState::Resetting);
    assert!(!inst.has_sent_percent);
}

#[test]
fn reset_begin_mid_cycle_takes_over_without_signal() {
    let mut inst = fresh(1);
    inst.state = InstanceState::LoadingScreen;
    let emit = inst.reset_begin();
    assert!(!emit);
    assert_eq!(inst.state, InstanceState::Resetting);

    inst.state = InstanceState::Resetting;
    assert!(!inst.reset_begin());
}

#[test]
fn resetting_advances_on_generating_only() {
    let mut inst = fresh(1);
    inst.state = InstanceState::Resetting;
    let ev = inst.reset_poll(b"waiting for chunks");
    assert_eq!(inst.state, InstanceState::Resetting);
    assert!(!ev.done);

    let ev = inst.reset_poll(b"generating world, please hold");
    assert_eq!(inst.state, InstanceState::LoadingScreen);
    assert!(!ev.dismiss_menu);
    assert_eq!(ev.preview_ready, None);
    assert!(!ev.done);
}

#[test]
fn loading_screen_advances_only_on_previewing() {
    let mut inst = fresh(7);
    inst.state = InstanceState::LoadingScreen;

    for junk in [&b"generating"[..], &b"inworld"[..], &b""[..], &b"previewin"[..]] {
        let ev = inst.reset_poll(junk);
        assert_eq!(inst.state, InstanceState::LoadingScreen);
        assert_eq!(ev.preview_ready, None);
        assert!(!ev.dismiss_menu);
        assert!(!ev.done);
    }

    let ev = inst.reset_poll(b"previewing,0");
    assert_eq!(inst.state, InstanceState::Preview);
    assert!(ev.dismiss_menu);
    assert_eq!(ev.preview_ready, Some(7));
}

#[test]
fn percent_fires_once_above_threshold() {
    let mut inst = fresh(3);
    inst.state = InstanceState::Preview;

    let ev = inst.reset_poll(b"previewing,42");
    assert_eq!(ev.percent, None);
    assert_eq!(inst.preview_percent, 42);
    assert!(!inst.has_sent_percent);

    let ev = inst.reset_poll(b"previewing,81");
    assert_eq!(ev.percent, Some(81));
    assert!(inst.has_sent_percent);

    let ev = inst.reset_poll(b"previewing,95");
    assert_eq!(ev.percent, None);
    assert_eq!(inst.preview_percent, 81);
}

#[test]
fn percent_threshold_is_strict() {
    let mut inst = fresh(3);
    inst.state = InstanceState::Preview;
    let ev = inst.reset_poll(b"previewing,80");
    assert_eq!(ev.percent, None);
    assert!(!inst.has_sent_percent);
}

#[test]
fn percent_flag_clears_on_next_cycle() {
    let mut inst = fresh(3);
    inst.state = InstanceState::Preview;
    inst.reset_poll(b"previewing,99");
    assert!(inst.has_sent_percent);
    inst.reset_begin();
    assert!(!inst.has_sent_percent);
}

#[test]
fn malformed_percent_is_no_percent_data() {
    let mut inst = fresh(3);
    inst.state = InstanceState::Preview;
    for junk in [&b"previewing"[..], &b"previewing,"[..], &b"previewing,abc"[..], &b"previewing,12x,5"[..]] {
        let ev = inst.reset_poll(junk);
        assert_eq!(ev.percent, None);
        assert_eq!(inst.preview_percent, 0);
        assert!(!inst.has_sent_percent);
        assert_eq!(inst.state, InstanceState::Preview);
    }
}

#[test]
fn inworld_finishes_the_cycle() {
    let mut inst = fresh(2);
    inst.state = InstanceState::Preview;
    inst.has_sent_percent = true;
    let ev = inst.reset_poll(b"inworld,paused");
    assert_eq!(inst.state, InstanceState::Idle);
    assert!(ev.dismiss_menu);
    assert!(ev.done);
}

#[test]
fn poll_from_idle_or_playing_is_done() {
    let mut inst = fresh(2);
    let ev = inst.reset_poll(b"previewing,99");
    assert!(ev.done);
    assert_eq!(inst.state, InstanceState::Idle);

    inst.state = InstanceState::Playing;
    let ev = inst.reset_poll(b"generating");
    assert!(ev.done);
    assert_eq!(inst.state, InstanceState::Playing);
}

#[test]
fn play_only_from_idle() {
    let mut inst = fresh(4);
    assert!(inst.play());
    assert_eq!(inst.state, InstanceState::Playing);
    assert!(!inst.play());
    assert_eq!(inst.state, InstanceState::Playing);

    let mut busy = fresh(5);
    busy.state = InstanceState::Resetting;
    assert!(!busy.play());
    assert_eq!(busy.state, InstanceState::Resetting);
}

#[test]
fn exit_reverses_thin_mode() {
    let mut inst = fresh(4);
    assert!(inst.thin());
    assert!(inst.thin);
    let was_thin = inst.exit();
    assert!(was_thin);
    assert!(!inst.thin);
    assert!(!inst.exit());
}

#[test]
fn lock_and_unlock_are_idempotent() {
    let mut inst = fresh(4);
    inst.lock();
    inst.lock();
    assert!(inst.locked);
    inst.unlock();
    inst.unlock();
    assert!(!inst.locked);
}

#[test]
fn threadcount_and_affinity_are_cached() {
    let mut inst = fresh(3);
    let apply = inst.set_threadcount(2).expect("first application is needed");
    assert_eq!(apply.instance_num, 3);
    assert_eq!(apply.affinity_mask, 0b11 << 6);
    assert_eq!(inst.set_threadcount(2), None);

    let apply = inst.set_threadcount(30).expect("changed count is applied");
    assert_eq!(apply.affinity_mask, (1u64 << 30) - 1);

    assert_eq!(inst.set_affinity((1u64 << 30) - 1), None);
    let apply = inst.set_affinity(0xF).expect("changed mask is applied");
    assert_eq!(apply.affinity_mask, 0xF);
}
