//! Affinity allocation policy and its idempotence.

use wallctl::allocator::{MIN_MASK, WIDE_MASK};
use wallctl::instance::InstanceInfo;
use wallctl::manager::InstanceManager;
use wallctl::state::InstanceState;

fn discovered(nums: &[u32]) -> InstanceManager {
    let infos = nums
        .iter()
        .map(|&num| InstanceInfo {
            window: 100 + num,
            pid: 1000 + num,
            gamedir: format!("/instances/RSG {}/.minecraft", num).into_bytes(),
            instance_num: num,
        })
        .collect();
    InstanceManager::initialize(infos)
}

#[test]
fn playing_instance_gets_wide_mask_everyone_else_minimal() {
    let mut m = discovered(&[1, 2, 3, 4]);
    m.instances[0].state = InstanceState::Playing;
    m.instances[2].state = InstanceState::Preview;
    m.instances[3].state = InstanceState::Resetting;

    let actions = m.update_affinities();

    let wide: Vec<u32> = actions
        .iter()
        .filter(|a| a.affinity_mask == WIDE_MASK)
        .map(|a| a.instance_num)
        .collect();
    assert_eq!(wide, vec![1], "the playing instance gets the wide mask exactly once");

    let minimal: Vec<u32> = actions
        .iter()
        .filter(|a| a.affinity_mask == MIN_MASK)
        .map(|a| a.instance_num)
        .collect();
    assert_eq!(minimal, vec![2, 3], "each idle or previewing instance gets the minimal mask once");

    let busy: Vec<u32> = actions
        .iter()
        .filter(|a| a.affinity_mask == (1u64 << 15) - 1)
        .map(|a| a.instance_num)
        .collect();
    assert_eq!(busy, vec![4], "the resetting instance gets the reset allocation");

    assert_eq!(actions.len(), 4);
}

#[test]
fn allocator_is_idempotent() {
    let mut m = discovered(&[1, 2, 3, 4]);
    m.instances[0].state = InstanceState::Playing;
    m.instances[3].state = InstanceState::LoadingScreen;

    let first = m.update_affinities();
    assert!(!first.is_empty());
    let second = m.update_affinities();
    assert!(second.is_empty(), "a second run with no state change issues no calls");
}

#[test]
fn idle_wall_favours_the_first_locked_idle_instance() {
    let mut m = discovered(&[1, 2, 3]);
    m.lock(2);

    let actions = m.update_affinities();
    assert_eq!(actions.len(), 3);
    assert_eq!(actions[0].instance_num, 1);
    assert_eq!(actions[0].affinity_mask, 0b11 << 2);
    assert_eq!(actions[1].instance_num, 2);
    assert_eq!(actions[1].affinity_mask, (1u64 << 30) - 1);
    assert_eq!(actions[2].instance_num, 3);
    assert_eq!(actions[2].affinity_mask, 0b11 << 6);

    let again = m.update_affinities();
    assert!(again.is_empty());
}

#[test]
fn state_change_between_runs_is_reapplied() {
    let mut m = discovered(&[1, 2]);
    m.instances[0].state = InstanceState::Playing;
    m.update_affinities();

    m.instances[0].state = InstanceState::Idle;
    m.instances[1].state = InstanceState::Playing;
    let actions = m.update_affinities();
    assert!(actions.iter().any(|a| a.instance_num == 2 && a.affinity_mask == WIDE_MASK));
    assert!(actions.iter().any(|a| a.instance_num == 1 && a.affinity_mask == MIN_MASK));
}
