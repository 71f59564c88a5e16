//! Manager orchestration: resets, cancellation records, locking, queries.

use wallctl::instance::InstanceInfo;
use wallctl::manager::InstanceManager;
use wallctl::state::InstanceState;

fn discovered(nums: &[u32]) -> InstanceManager {
    let infos = nums
        .iter()
        .map(|&num| InstanceInfo {
            window: 100 + num,
            pid: 1000 + num,
            gamedir: format!("/instances/RSG {}/.minecraft", num).into_bytes(),
            instance_num: num,
        })
        .collect();
    InstanceManager::initialize(infos)
}

#[test]
fn initialize_builds_roster_and_queue() {
    let m = discovered(&[1, 2, 3, 4]);
    assert_eq!(m.instances.len(), 4);
    for (i, num) in [1u32, 2, 3, 4].iter().enumerate() {
        assert_eq!(m.instances[i].instance_info.instance_num, *num);
        assert_eq!(m.instances[i].state, InstanceState::Idle);
    }
    assert_eq!(m.preview_unlocked_wall_queue.len(), 4);
    assert!(m.preview_unlocked_wall_queue.can_pop());
    assert!(m.locked_instances.is_empty());
    assert!(m.reset_inflight.is_empty());
}

#[test]
fn reset_unknown_instance_is_not_found() {
    let mut m = discovered(&[1]);
    assert!(m.reset_instance(9).is_none());
    assert!(m.reset_inflight.is_empty());
}

#[test]
fn second_reset_cancels_the_first_task() {
    let mut m = discovered(&[1, 2]);
    let a1 = m.reset_instance(1).expect("known instance");
    assert_eq!(a1.instance_num, 1);
    assert!(!a1.cancel_prior);
    assert!(a1.emit_reset_signal);
    assert_eq!(m.instances[0].state, InstanceState::Resetting);
    assert_eq!(m.reset_inflight, vec![1]);

    let a2 = m.reset_instance(1).expect("known instance");
    assert!(a2.cancel_prior);
    assert!(!a2.emit_reset_signal);
    assert_eq!(m.reset_inflight, vec![1], "exactly one in-flight reset per instance");
}

#[test]
fn bag_of_four_resets_in_ready_order() {
    let mut m = discovered(&[1, 2, 3, 4]);
    m.preview_unlocked_wall_queue.clear();

    for num in [2u32, 4, 1, 3] {
        m.reset_instance(num).expect("known instance");
        let idx = m.get_instance_by_instance_num(num).unwrap();
        let ev = m.instances[idx].reset_poll(b"generating");
        assert_eq!(ev.preview_ready, None);
        let ev = m.instances[idx].reset_poll(b"previewing,0");
        assert_eq!(ev.preview_ready, Some(num));
        assert!(m.on_preview_ready(num));
    }

    assert!(m.preview_unlocked_wall_queue.can_pop());
    let actions = m.reset_wall_bag();
    let nums: Vec<u32> = actions.iter().map(|a| a.instance_num).collect();
    assert_eq!(nums, vec![2, 4, 1, 3]);
    for a in &actions {
        assert!(a.cancel_prior, "the preview tasks are still recorded in flight");
    }
    assert_eq!(m.preview_unlocked_wall_queue.len(), 0);
    assert!(!m.preview_unlocked_wall_queue.can_pop());
    for inst in &m.instances {
        assert_eq!(inst.state, InstanceState::Resetting);
    }
}

#[test]
fn reset_all_clears_queue_and_resets_everyone() {
    let mut m = discovered(&[1, 2, 3]);
    let actions = m.reset_all_instances();
    assert_eq!(actions.len(), 3);
    let nums: Vec<u32> = actions.iter().map(|a| a.instance_num).collect();
    assert_eq!(nums, vec![1, 2, 3]);
    assert_eq!(m.preview_unlocked_wall_queue.len(), 0);
    for inst in &m.instances {
        assert_eq!(inst.state, InstanceState::Resetting);
    }
}

#[test]
fn lock_is_idempotent_and_unlock_reverses_it() {
    let mut m = discovered(&[1, 2]);
    assert!(m.lock(2));
    assert!(m.lock(2));
    assert_eq!(m.locked_instances, vec![2]);
    assert!(m.instances[1].locked);

    assert!(m.unlock(2));
    assert!(m.locked_instances.is_empty());
    assert!(!m.instances[1].locked);

    assert!(!m.lock(9));
    assert!(!m.unlock(9));
}

#[test]
fn preview_ready_queues_each_instance_once() {
    let mut m = discovered(&[1, 2]);
    m.preview_unlocked_wall_queue.clear();
    assert!(m.on_preview_ready(1));
    assert!(m.on_preview_ready(1));
    assert_eq!(m.preview_unlocked_wall_queue.len(), 1);
    assert!(!m.on_preview_ready(9));
    assert_eq!(m.preview_unlocked_wall_queue.len(), 1);
}

#[test]
fn queries_reflect_states_and_locks() {
    let mut m = discovered(&[1, 2, 3, 4]);
    m.lock(2);
    m.instances[2].state = InstanceState::Resetting;
    m.instances[3].state = InstanceState::Playing;

    assert_eq!(m.get_unlocked_idle_instances(), vec![1]);
    assert_eq!(m.get_playing_instance(), Some(4));
    assert_eq!(m.get_first_idle_locked_instance(), Some(2));
    assert_eq!(m.get_instance_by_instance_num(3), Some(2));
    assert_eq!(m.get_instance_by_instance_num(9), None);

    m.instances[1].state = InstanceState::Preview;
    assert_eq!(m.get_first_idle_locked_instance(), None);
}
