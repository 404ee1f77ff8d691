use rp2350_misc::order::sorted_channels;
use rp2350_misc::pwm::{PwmData, PwmStep};

fn reflected(levels: [u8; 8]) -> PwmData {
    let mut data = PwmData::new();
    data.pwm_levels = levels;
    data.reflect();
    data
}

fn step(length: u8, data: u32) -> PwmStep {
    PwmStep { length, data }
}

fn total_length(steps: &[PwmStep; 9]) -> u32 {
    steps.iter().map(|s| s.length as u32).sum()
}

fn on_time(steps: &[PwmStep; 9], channel: usize) -> u32 {
    steps
        .iter()
        .filter(|s| s.data & (1 << channel) != 0)
        .map(|s| s.length as u32)
        .sum()
}

fn live_steps(steps: &[PwmStep; 9]) -> usize {
    steps.iter().filter(|s| s.length > 0).count()
}

/// A fixed sequence of level sets that covers ties, extremes and mixed values.
fn sample_levels() -> Vec<[u8; 8]> {
    let mut all = vec![
        [0; 8],
        [255; 8],
        [1; 8],
        [0, 2, 5, 0, 0, 100, 0, 0],
        [255, 0, 0, 0, 0, 0, 0, 0],
        [0, 0, 0, 0, 0, 0, 0, 255],
        [1, 2, 3, 4, 5, 6, 7, 8],
        [8, 7, 6, 5, 4, 3, 2, 1],
        [255, 254, 253, 252, 251, 250, 249, 248],
        [10, 10, 20, 20, 30, 30, 40, 40],
        [200, 100, 200, 100, 200, 100, 200, 100],
        [0, 255, 0, 255, 0, 255, 0, 255],
        [128, 127, 129, 0, 255, 1, 254, 128],
    ];
    let mut seed: u32 = 0x2545_F491;
    for _ in 0..200 {
        let mut levels = [0u8; 8];
        for level in levels.iter_mut() {
            seed = seed.wrapping_mul(1_664_525).wrapping_add(1_013_904_223);
            *level = (seed >> 24) as u8;
        }
        all.push(levels);
    }
    all
}

#[test]
fn new_is_switched_off() {
    let data = PwmData::new();
    assert_eq!(data.pwm_levels, [0; 8]);
    for k in 0..8 {
        assert_eq!(data.pwm_steps[k], step(0, 0));
    }
    assert_eq!(data.pwm_steps[8], step(255, 0));
    assert_eq!(total_length(&data.pwm_steps), 255);
    assert_eq!(live_steps(&data.pwm_steps), 1);
}

#[test]
fn all_zero_leaves_only_the_trailing_step() {
    let data = reflected([0; 8]);
    for k in 0..8 {
        assert_eq!(data.pwm_steps[k].length, 0);
    }
    assert_eq!(data.pwm_steps[8], step(255, 0));
    assert_eq!(live_steps(&data.pwm_steps), 1);
}

#[test]
fn all_zero_steps_in_full() {
    let data = reflected([0; 8]);
    assert_eq!(
        data.pwm_steps,
        [
            step(0, 0xFF),
            step(0, 0xFE),
            step(0, 0xFC),
            step(0, 0xF8),
            step(0, 0xF0),
            step(0, 0xE0),
            step(0, 0xC0),
            step(0, 0x80),
            step(255, 0),
        ]
    );
}

#[test]
fn all_full_has_no_trailing_interval() {
    let data = reflected([255; 8]);
    assert_eq!(data.pwm_steps[0], step(255, 0xFF));
    for k in 1..9 {
        assert_eq!(data.pwm_steps[k].length, 0);
    }
    assert_eq!(data.pwm_steps[8], step(0, 0));
    assert_eq!(total_length(&data.pwm_steps), 255);
    assert_eq!(live_steps(&data.pwm_steps), 1);
}

#[test]
fn lengths_add_up_to_the_cycle() {
    for levels in sample_levels() {
        let data = reflected(levels);
        assert_eq!(total_length(&data.pwm_steps), 255, "levels {:?}", levels);
    }
}

#[test]
fn each_channel_is_on_for_its_level() {
    for levels in sample_levels() {
        let data = reflected(levels);
        for channel in 0..8 {
            assert_eq!(
                on_time(&data.pwm_steps, channel),
                levels[channel] as u32,
                "levels {:?}, channel {}",
                levels,
                channel
            );
        }
    }
}

#[test]
fn each_channel_switches_off_once() {
    for levels in sample_levels() {
        let data = reflected(levels);
        for channel in 0..8 {
            let on: Vec<bool> = data.pwm_steps.iter().map(|s| s.data & (1 << channel) != 0).collect();
            assert!(on[0], "levels {:?}, channel {}", levels, channel);
            assert!(!on[8], "levels {:?}, channel {}", levels, channel);
            for k in 1..9 {
                assert!(on[k - 1] || !on[k], "levels {:?}, channel {}, step {}", levels, channel, k);
            }
        }
    }
}

#[test]
fn a_step_that_takes_time_drives_the_channels_above_its_start() {
    for levels in sample_levels() {
        let data = reflected(levels);
        let mut start: u32 = 0;
        for s in data.pwm_steps.iter() {
            if s.length > 0 {
                for channel in 0..8 {
                    assert_eq!(
                        s.data & (1 << channel) != 0,
                        start < levels[channel] as u32,
                        "levels {:?}, channel {}, start {}",
                        levels,
                        channel,
                        start
                    );
                }
            }
            start += s.length as u32;
        }
    }
}

#[test]
fn no_line_beyond_the_eight_channels_is_driven() {
    for levels in sample_levels() {
        let data = reflected(levels);
        for s in data.pwm_steps.iter() {
            assert_eq!(s.data & !0xFF, 0);
        }
        assert_eq!(data.pwm_steps[0].data, 0xFF);
        assert_eq!(data.pwm_steps[8].data, 0);
    }
}

#[test]
fn as_many_live_steps_as_distinct_levels() {
    for levels in sample_levels() {
        let data = reflected(levels);
        let mut distinct: Vec<u8> = levels.iter().copied().filter(|&l| l > 0).collect();
        distinct.sort();
        distinct.dedup();
        let trailing = if levels.iter().any(|&l| l == 255) { 0 } else { 1 };
        assert_eq!(live_steps(&data.pwm_steps), distinct.len() + trailing, "levels {:?}", levels);
    }
}

#[test]
fn reflect_leaves_the_levels_alone() {
    for levels in sample_levels() {
        assert_eq!(reflected(levels).pwm_levels, levels);
    }
}

#[test]
fn reflect_twice_gives_the_same_steps() {
    for levels in sample_levels() {
        let once = reflected(levels);
        let mut twice = once;
        twice.reflect();
        assert_eq!(twice, once, "levels {:?}", levels);
    }
}

#[test]
fn reflect_forgets_the_steps_before() {
    let mut data = reflected([9, 8, 7, 6, 5, 4, 3, 2]);
    data.pwm_levels = [0, 2, 5, 0, 0, 100, 0, 0];
    data.reflect();
    assert_eq!(data, reflected([0, 2, 5, 0, 0, 100, 0, 0]));
}

#[test]
fn mixed_levels_scenario() {
    let levels = [0, 2, 5, 0, 0, 100, 0, 0];
    let data = reflected(levels);
    for channel in 0..8 {
        assert_eq!(on_time(&data.pwm_steps, channel), levels[channel] as u32);
    }
    let live_before_trailing = data.pwm_steps[..8].iter().filter(|s| s.length > 0).count();
    assert!(live_before_trailing <= 5);
    assert_eq!(live_before_trailing, 3);
    assert_eq!(data.pwm_steps[8].length, 255 - 100);
    assert_eq!(data.pwm_steps[8].data, 0);
}

#[test]
fn mixed_levels_steps_in_full() {
    let data = reflected([0, 2, 5, 0, 0, 100, 0, 0]);
    assert_eq!(
        data.pwm_steps,
        [
            step(0, 0xFF),
            step(0, 0xFE),
            step(0, 0xF6),
            step(0, 0xE6),
            step(0, 0xA6),
            step(2, 0x26),
            step(3, 0x24),
            step(95, 0x20),
            step(155, 0),
        ]
    );
}

#[test]
fn single_full_channel_scenario() {
    let data = reflected([255, 0, 0, 0, 0, 0, 0, 0]);
    let live: Vec<PwmStep> = data.pwm_steps.iter().copied().filter(|s| s.length > 0).collect();
    assert_eq!(live, vec![step(255, 0x01)]);
    assert_eq!(data.pwm_steps[7], step(255, 0x01));
    assert_eq!(data.pwm_steps[8], step(0, 0));
}

#[test]
fn distinct_levels_take_eight_live_steps_and_a_trailing_one() {
    let data = reflected([80, 10, 70, 20, 60, 30, 50, 40]);
    assert_eq!(
        data.pwm_steps,
        [
            step(10, 0xFF),
            step(10, 0xFD),
            step(10, 0xF5),
            step(10, 0xD5),
            step(10, 0x55),
            step(10, 0x15),
            step(10, 0x05),
            step(10, 0x01),
            step(175, 0),
        ]
    );
}

#[test]
fn equal_levels_switch_off_by_ascending_index() {
    assert_eq!(sorted_channels(&[7; 8]), [0, 1, 2, 3, 4, 5, 6, 7]);
    assert_eq!(sorted_channels(&[5, 3, 5, 3, 5, 3, 5, 3]), [1, 3, 5, 7, 0, 2, 4, 6]);
}

#[test]
fn sorted_channels_orders_by_level() {
    assert_eq!(sorted_channels(&[0, 2, 5, 0, 0, 100, 0, 0]), [0, 3, 4, 6, 7, 1, 2, 5]);
    assert_eq!(sorted_channels(&[8, 7, 6, 5, 4, 3, 2, 1]), [7, 6, 5, 4, 3, 2, 1, 0]);
    assert_eq!(sorted_channels(&[255, 0, 0, 0, 0, 0, 0, 0]), [1, 2, 3, 4, 5, 6, 7, 0]);
}

#[test]
fn sorted_channels_is_an_ascending_arrangement() {
    for levels in sample_levels() {
        let order = sorted_channels(&levels);
        let mut seen = [false; 8];
        for &c in order.iter() {
            assert!(c < 8);
            assert!(!seen[c]);
            seen[c] = true;
        }
        for k in 1..8 {
            let (a, c) = (order[k - 1], order[k]);
            assert!(levels[a] < levels[c] || (levels[a] == levels[c] && a < c));
        }
    }
}

#[test]
fn update_levels_sets_levels_and_steps_together() {
    let mut data = PwmData::new();
    data.update_levels([0, 2, 5, 0, 0, 100, 0, 0]);
    assert_eq!(data, reflected([0, 2, 5, 0, 0, 100, 0, 0]));
    data.update_levels([255; 8]);
    assert_eq!(data, reflected([255; 8]));
}

#[test]
fn read_snapshot_is_a_copy_of_the_steps() {
    let mut data = reflected([1, 2, 3, 4, 5, 6, 7, 8]);
    let snapshot = data.read_snapshot();
    assert_eq!(snapshot, data.pwm_steps);
    data.update_levels([0; 8]);
    assert_eq!(snapshot, reflected([1, 2, 3, 4, 5, 6, 7, 8]).pwm_steps);
    assert_ne!(snapshot, data.pwm_steps);
}
