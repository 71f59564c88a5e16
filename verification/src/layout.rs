//! The wall layout handed to the presentation layer.
//!
//! The first sixteen queue slots (four bags of four) are tiled over a
//! 1920x1080 screen, two bags per row from the right and bottom edges
//! inward; every roster instance that did not land on the wall is parked
//! off-screen as a one-pixel cell.  While some instance is playing, the wall
//! cells are pushed off-screen too.  The surrounding process serialises the
//! entries and writes them out; building them is pure.

use crate::instance::Instance;
use crate::state::InstanceState;
use crate::manager::{find_num, first_playing, lemma_find_num, lemma_first_playing};
use crate::wall_queue::{live, WallQueue};
use vstd::prelude::*;

verus! {

/// One entry of the published wall layout.
#[derive(Clone, Copy, Debug, PartialEq, Eq, Structural)]
pub struct WallFileInstance {
    pub instance_num: u32,
    pub width: usize,
    pub height: usize,
    pub x: usize,
    pub y: usize,
    pub playing: bool,
    pub freeze: bool,
}

/// Horizontal position of wall slot `index`: bags of four tile two to a row
/// from the right edge inward, two cells to a bag row.
pub open spec fn wall_x(index: int) -> int {
    1920 - ((index / 4) % 2) * 960 - 960 + (index % 2) * 480
}

/// Vertical position of wall slot `index`.
pub open spec fn wall_y(index: int) -> int {
    1080 - ((index / 4) / 2) * 540 - 540 + ((index - (index / 4) * 4) / 2) * 270
}

/// An instance frozen on the wall: done resetting (idle or previewing) with
/// its preview essentially complete.
pub open spec fn spec_freeze(inst: Instance) -> bool {
    (inst.state is Idle || inst.state is Preview) && inst.preview_percent > 80
}

/// The layout entry of the instance on wall slot `index`.
pub open spec fn wall_entry(inst: Instance, index: int, in_play: bool) -> WallFileInstance {
    WallFileInstance {
        instance_num: inst.instance_info.instance_num,
        width: 480,
        height: 270,
        x: if in_play {
            1920
        } else {
            wall_x(index) as usize
        },
        y: wall_y(index) as usize,
        playing: inst.state is Playing,
        freeze: spec_freeze(inst),
    }
}

/// The off-screen entry of an instance that did not land on the wall.
pub open spec fn overflow_entry(inst: Instance) -> WallFileInstance {
    WallFileInstance {
        instance_num: inst.instance_info.instance_num,
        width: 1,
        height: 1,
        x: 1920,
        y: 0,
        playing: inst.state is Playing,
        freeze: spec_freeze(inst),
    }
}

/// The wall entries of the given slots, in slot order: one entry per live
/// slot whose number is on the roster, holes keeping their positions.
pub open spec fn layout_slots(
    slots: Seq<Option<u32>>,
    instances: Seq<Instance>,
    in_play: bool,
) -> Seq<WallFileInstance>
    decreases slots.len(),
{
    if slots.len() == 0 {
        Seq::empty()
    } else {
        layout_slots(slots.drop_last(), instances, in_play) + (match slots.last() {
            Some(num) => {
                let idx = find_num(instances, num);
                if idx < instances.len() {
                    seq![wall_entry(instances[idx], slots.len() - 1, in_play)]
                } else {
                    Seq::empty()
                }
            },
            None => Seq::empty(),
        })
    }
}

/// Whether the wall already shows the instance with this number.
pub open spec fn is_written(
    slots16: Seq<Option<u32>>,
    instances: Seq<Instance>,
    num: u32,
) -> bool {
    live(slots16).contains(num) && find_num(instances, num) < instances.len()
}

/// The off-screen entries: one per roster instance the wall does not show,
/// in roster order.
pub open spec fn layout_rest(
    rost: Seq<Instance>,
    slots16: Seq<Option<u32>>,
    all: Seq<Instance>,
) -> Seq<WallFileInstance>
    decreases rost.len(),
{
    if rost.len() == 0 {
        Seq::empty()
    } else {
        layout_rest(rost.drop_last(), slots16, all) + (if is_written(
            slots16,
            all,
            rost.last().instance_info.instance_num,
        ) {
            Seq::empty()
        } else {
            seq![overflow_entry(rost.last())]
        })
    }
}

/// The sixteen wall slots the layout draws from.
pub open spec fn wall_prefix(slots: Seq<Option<u32>>) -> Seq<Option<u32>> {
    if slots.len() < 16 {
        slots
    } else {
        slots.subrange(0, 16)
    }
}

/// The complete published layout for a queue and roster.
pub open spec fn spec_wall_layout(
    slots: Seq<Option<u32>>,
    instances: Seq<Instance>,
) -> Seq<WallFileInstance> {
    let in_play = first_playing(instances) < instances.len();
    let prefix = wall_prefix(slots);
    layout_slots(prefix, instances, in_play) + layout_rest(instances, prefix, instances)
}

/// Index of the first roster entry with the given number.
#[verifier::loop_isolation(false)]
fn find_instance(instances: &Vec<Instance>, num: u32) -> (r: Option<usize>)
    ensures
        match r {
            Some(i) => i == find_num(instances@, num) && i < instances@.len(),
            None => find_num(instances@, num) == instances@.len(),
        },
{
    proof {
        lemma_find_num(instances@, num);
    }
    let mut i: usize = 0;
    let n = instances.len();
    while i < n
        invariant
            i <= n,
            forall|j: int|
                0 <= j < i ==> (#[trigger] instances@[j]).instance_info.instance_num != num,
        decreases n - i,
    {
        if instances[i].instance_info.instance_num == num {
            proof {
                if i < find_num(instances@, num) {
                    assert(instances@[i as int].instance_info.instance_num != num);
                }
                if find_num(instances@, num) < i {
                    assert(instances@[find_num(instances@, num)].instance_info.instance_num
                        == num);
                }
            }
            return Some(i);
        }
        i += 1;
    }
    None
}

/// Whether some live slot below `upto` holds `num`.
#[verifier::loop_isolation(false)]
fn prefix_contains(wall_queue: &WallQueue, upto: usize, num: u32) -> (r: bool)
    requires
        upto <= wall_queue.slots().len(),
    ensures
        r == live(wall_queue.slots().subrange(0, upto as int)).contains(num),
{
    proof {
        crate::wall_queue::lemma_live_contains(
            wall_queue.slots().subrange(0, upto as int),
            num,
        );
    }
    let mut i: usize = 0;
    while i < upto
        invariant
            i <= upto,
            forall|j: int| 0 <= j < i ==> wall_queue.slots()[j] != Some(num),
        decreases upto - i,
    {
        let hit = match wall_queue.slot(i) {
            Some(v) => v == num,
            None => false,
        };
        if hit {
            proof {
                assert(wall_queue.slots().subrange(0, upto as int)[i as int] == Some(num));
            }
            return true;
        }
        i += 1;
    }
    proof {
        if live(wall_queue.slots().subrange(0, upto as int)).contains(num) {
            let j = choose|j: int|
                0 <= j < upto && wall_queue.slots().subrange(0, upto as int)[j] == Some(num);
            assert(wall_queue.slots()[j] == Some(num));
        }
    }
    false
}

/// Builds the wall layout the presentation layer shows: the first sixteen
/// queue slots tiled on screen, every other roster instance parked
/// off-screen.  The surrounding process serialises and publishes the result.
#[verifier::loop_isolation(false)]
#[verifier::rlimit(80)]
pub fn build_wall_layout(wall_queue: &WallQueue, all_instances: &Vec<Instance>) -> (r: Vec<
    WallFileInstance,
>)
    requires
        wall_queue.bag() == 4,
    ensures
        r@ == spec_wall_layout(wall_queue.slots(), all_instances@),
{
    let ghost slots = wall_queue.slots();
    let ghost prefix = wall_prefix(slots);
    proof {
        lemma_first_playing(all_instances@);
    }
    // Whether some instance is playing: the wall is pushed aside while one is.
    let mut in_play_mode = false;
    let mut t: usize = 0;
    let n = all_instances.len();
    while t < n
        invariant
            t <= n,
            !in_play_mode,
            forall|j: int| 0 <= j < t ==> !((#[trigger] all_instances@[j]).state is Playing),
        decreases n - t,
    {
        if all_instances[t].state == InstanceState::Playing {
            in_play_mode = true;
            break ;
        }
        t += 1;
    }
    proof {
        if !in_play_mode && first_playing(all_instances@) < all_instances@.len() {
            assert(!(all_instances@[first_playing(all_instances@)].state is Playing));
        }
    }
    let screen_width: usize = 1920;
    let screen_height: usize = 1080;
    let bag_size = wall_queue.bag_size();
    let instance_width = screen_width / bag_size;
    let instance_height = screen_height / bag_size;
    let bags_horizontal: usize = 2;
    let bags_vertical: usize = 2;
    let bag_width = screen_width / bags_horizontal;
    let bag_height = screen_height / bags_vertical;
    let bag_cols: usize = 2;
    let mut r: Vec<WallFileInstance> = Vec::new();
    let qlen = wall_queue.len();
    let upto = if qlen < 16 {
        qlen
    } else {
        16
    };
    proof {
        assert(prefix =~= slots.subrange(0, upto as int));
    }
    let mut index: usize = 0;
    while index < upto
        invariant
            index <= upto,
            upto <= 16,
            upto <= slots.len(),
            r@ == layout_slots(
                slots.subrange(0, index as int),
                all_instances@,
                first_playing(all_instances@) < all_instances@.len(),
            ),
            in_play_mode == (first_playing(all_instances@) < all_instances@.len()),
        decreases upto - index,
    {
        proof {
            assert(slots.subrange(0, index + 1).drop_last() =~= slots.subrange(0, index as int));
        }
        match wall_queue.slot(index) {
            Some(num) => {
                match find_instance(all_instances, num) {
                    Some(idx) => {
                        let bag_index = index / bag_size;
                        let bag_x_pos = bag_index % bags_horizontal;
                        let bag_y_pos = bag_index / bags_vertical;
                        let bag_x = screen_width - bag_x_pos * bag_width - bag_width;
                        let bag_y = screen_height - bag_y_pos * bag_height - bag_height;
                        let instance_x = bag_x + (index % bag_cols) * instance_width;
                        let instance_y = bag_y + ((index - bag_index * bag_size) / bag_cols)
                            * instance_height;
                        let inst = &all_instances[idx];
                        let playing = inst.state == InstanceState::Playing;
                        let idleish = inst.state == InstanceState::Idle || inst.state
                            == InstanceState::Preview;
                        let entry = WallFileInstance {
                            instance_num: inst.instance_info.instance_num,
                            width: instance_width,
                            height: instance_height,
                            x: if in_play_mode {
                                screen_width
                            } else {
                                instance_x
                            },
                            y: instance_y,
                            playing,
                            freeze: idleish && inst.preview_percent > 80,
                        };
                        proof {
                            assert(entry == wall_entry(
                                all_instances@[idx as int],
                                index as int,
                                in_play_mode,
                            ));
                        }
                        r.push(entry);
                    },
                    None => {},
                }
            },
            None => {},
        }
        proof {
            assert(r@ =~= layout_slots(
                slots.subrange(0, index + 1),
                all_instances@,
                in_play_mode,
            ));
        }
        index += 1;
    }
    let mut k: usize = 0;
    let ghost part1 = r@;
    while k < n
        invariant
            k <= n,
            r@ == part1 + layout_rest(
                all_instances@.subrange(0, k as int),
                slots.subrange(0, upto as int),
                all_instances@,
            ),
            upto <= slots.len(),
        decreases n - k,
    {
        proof {
            assert(all_instances@.subrange(0, k + 1).drop_last() =~= all_instances@.subrange(
                0,
                k as int,
            ));
        }
        let num = all_instances[k].instance_info.instance_num;
        let shown = prefix_contains(wall_queue, upto, num);
        let known = match find_instance(all_instances, num) {
            Some(_) => true,
            None => false,
        };
        if !(shown && known) {
            let inst = &all_instances[k];
            let playing = inst.state == InstanceState::Playing;
            let idleish = inst.state == InstanceState::Idle || inst.state
                == InstanceState::Preview;
            let entry = WallFileInstance {
                instance_num: num,
                width: 1,
                height: 1,
                x: screen_width,
                y: 0,
                playing,
                freeze: idleish && inst.preview_percent > 80,
            };
            proof {
                assert(entry == overflow_entry(all_instances@[k as int]));
            }
            r.push(entry);
        }
        proof {
            assert(r@ =~= part1 + layout_rest(
                all_instances@.subrange(0, k + 1),
                slots.subrange(0, upto as int),
                all_instances@,
            ));
        }
        k += 1;
    }
    proof {
        assert(all_instances@.subrange(0, n as int) =~= all_instances@);
        assert(r@ =~= spec_wall_layout(slots, all_instances@));
    }
    r
}

} // verus!
