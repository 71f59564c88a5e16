//! The published wall layout.

use wallctl::instance::{Instance, InstanceInfo};
use wallctl::layout::build_wall_layout;
use wallctl::state::InstanceState;
use wallctl::wall_queue::WallQueue;

fn fresh(num: u32) -> Instance {
    Instance::new(InstanceInfo {
        window: 100 + num,
        pid: 1000 + num,
        gamedir: format!("/instances/RSG {}/.minecraft", num).into_bytes(),
        instance_num: num,
    })
}

#[test]
fn empty_queue_and_roster_publish_nothing() {
    let q = WallQueue::new();
    let layout = build_wall_layout(&q, &Vec::new());
    assert!(layout.is_empty());
}

#[test]
fn wall_cells_tile_from_the_bottom_right_bag() {
    let mut q = WallQueue::new();
    q.push(1);
    q.push(2);
    let instances = vec![fresh(1), fresh(2)];
    let layout = build_wall_layout(&q, &instances);
    assert_eq!(layout.len(), 2);

    assert_eq!(layout[0].instance_num, 1);
    assert_eq!((layout[0].width, layout[0].height), (480, 270));
    assert_eq!((layout[0].x, layout[0].y), (960, 540));
    assert!(!layout[0].playing);
    assert!(!layout[0].freeze);

    assert_eq!(layout[1].instance_num, 2);
    assert_eq!((layout[1].x, layout[1].y), (1440, 540));
}

#[test]
fn holes_keep_their_slot_positions() {
    let mut q = WallQueue::new();
    q.push(1);
    q.push(9);
    q.push(2);
    q.remove_by_instance_num(9);
    let instances = vec![fresh(1), fresh(2)];
    let layout = build_wall_layout(&q, &instances);
    assert_eq!(layout.len(), 2);
    assert_eq!(layout[0].instance_num, 1);
    assert_eq!((layout[0].x, layout[0].y), (960, 540));
    // The second live entry still sits on slot two of the first bag.
    assert_eq!(layout[1].instance_num, 2);
    assert_eq!((layout[1].x, layout[1].y), (960, 810));
}

#[test]
fn unqueued_instances_park_off_screen() {
    let mut q = WallQueue::new();
    q.push(1);
    let instances = vec![fresh(1), fresh(2), fresh(3)];
    let layout = build_wall_layout(&q, &instances);
    assert_eq!(layout.len(), 3);
    assert_eq!(layout[0].instance_num, 1);
    assert_eq!(layout[1].instance_num, 2);
    assert_eq!((layout[1].width, layout[1].height), (1, 1));
    assert_eq!((layout[1].x, layout[1].y), (1920, 0));
    assert_eq!(layout[2].instance_num, 3);
    assert_eq!((layout[2].x, layout[2].y), (1920, 0));
}

#[test]
fn play_mode_pushes_the_wall_aside() {
    let mut q = WallQueue::new();
    q.push(1);
    q.push(2);
    let mut instances = vec![fresh(1), fresh(2)];
    instances[1].state = InstanceState::Playing;
    let layout = build_wall_layout(&q, &instances);
    assert_eq!(layout[0].x, 1920);
    assert_eq!(layout[0].y, 540, "vertical positions survive play mode");
    assert_eq!(layout[1].x, 1920);
    assert!(layout[1].playing);
    assert!(!layout[0].playing);
}

#[test]
fn freeze_marks_done_previews() {
    let mut q = WallQueue::new();
    q.push(1);
    q.push(2);
    q.push(3);
    let mut instances = vec![fresh(1), fresh(2), fresh(3)];
    instances[0].preview_percent = 90;
    instances[1].state = InstanceState::Preview;
    instances[1].preview_percent = 85;
    instances[2].state = InstanceState::Resetting;
    instances[2].preview_percent = 95;
    let layout = build_wall_layout(&q, &instances);
    assert!(layout[0].freeze, "idle with a finished preview freezes");
    assert!(layout[1].freeze, "previewing past the threshold freezes");
    assert!(!layout[2].freeze, "a resetting instance never freezes");
}

#[test]
fn second_bag_tiles_to_the_left() {
    let mut q = WallQueue::new();
    for n in 1u32..=5 {
        q.push(n);
    }
    let instances: Vec<Instance> = (1u32..=5).map(fresh).collect();
    let layout = build_wall_layout(&q, &instances);
    // Slot four opens the second bag, which sits one bag width to the left.
    assert_eq!(layout[4].instance_num, 5);
    assert_eq!((layout[4].x, layout[4].y), (0, 540));
}
