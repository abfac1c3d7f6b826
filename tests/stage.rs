use sabi::stage::{NetworkSimulationInfo, NetworkSimulationStage};
use sabi::tick::{tick_hz, NetworkTick};

#[test]
fn tick_rate_of_32_hz() {
    assert_eq!(tick_hz(32), 31_250_000);
}

#[test]
fn steps_follow_total_time_not_frame_sizes() {
    let step = tick_hz(32);
    let splits: [&[u64]; 3] = [
        &[step * 10],
        &[1, step - 1, step * 3, 5, step * 6 - 5],
        &[step / 3, step / 3, step - 2 * (step / 3), step * 9],
    ];
    for frames in splits {
        let mut stage = NetworkSimulationStage::new(step);
        let mut tick = Some(NetworkTick::new(0));
        let mut steps = 0u64;
        for d in frames {
            let n = stage.begin_frame(Some(*d));
            for _ in 0..n {
                assert!(NetworkSimulationStage::step_tick(&mut tick));
            }
            steps += n;
        }
        assert_eq!(steps, 10);
        assert_eq!(tick, Some(NetworkTick::new(10)));
        assert_eq!(stage.info.accumulator, 0);
    }
}

#[test]
fn frame_without_clock_is_skipped() {
    let mut stage = NetworkSimulationStage::new(100);
    assert_eq!(stage.begin_frame(Some(250)), 2);
    assert_eq!(stage.info.remaining(), 50);
    assert_eq!(stage.begin_frame(None), 0);
    assert_eq!(stage.info.remaining(), 50);
    assert_eq!(stage.begin_frame(Some(60)), 1);
    assert_eq!(stage.info.remaining(), 10);
}

#[test]
fn no_tick_means_no_simulation() {
    let mut tick: Option<NetworkTick> = None;
    assert!(!NetworkSimulationStage::step_tick(&mut tick));
    assert_eq!(tick, None);
}

#[test]
fn dilation_changes_the_step() {
    let mut info = NetworkSimulationInfo::new(31_250_000);
    assert_eq!(info.timestep(), 31_250_000);
    info.accel(1);
    assert_eq!(info.timestep(), 31_562_500);
    info.decel(1);
    assert_eq!(info.timestep(), 30_937_500);
    assert_eq!(info.static_timestep(), 31_250_000);
}

#[test]
fn rewind_target_is_clamped() {
    let now = NetworkTick::new(200);
    assert_eq!(NetworkSimulationStage::plan_rewind(now, NetworkTick::new(196)), Some(NetworkTick::new(196)));
    assert_eq!(NetworkSimulationStage::plan_rewind(now, NetworkTick::new(100)), Some(NetworkTick::new(169)));
    assert_eq!(NetworkSimulationStage::plan_rewind(now, NetworkTick::new(200)), None);
    assert_eq!(NetworkSimulationStage::plan_rewind(now, NetworkTick::new(250)), None);
}

fn sim(state: i64, input: i64) -> i64 {
    state * 3 / 2 + input
}

fn input_at(tick: u64) -> i64 {
    (tick % 7) as i64 - 3
}

#[test]
fn rewind_and_resim() {
    // Straight simulation from 190 to 200, remembering each tick's state.
    let mut history = std::collections::BTreeMap::new();
    let mut state = 5i64;
    history.insert(190u64, state);
    for t in 191..=200u64 {
        state = sim(state, input_at(t));
        history.insert(t, state);
    }
    // An update tagged 196 says E1's value at 196 was different.
    let server_value = history[&196] + 40;
    let target = NetworkSimulationStage::plan_rewind(NetworkTick::new(200), NetworkTick::new(196)).unwrap();
    assert_eq!(target, NetworkTick::new(196));
    let mut tick = target;
    let mut replayed = server_value;
    let ticks = NetworkSimulationStage::resim_ticks(target, NetworkTick::new(200));
    assert_eq!(ticks, (197..=200).map(NetworkTick::new).collect::<Vec<_>>());
    for t in ticks {
        tick = t;
        replayed = sim(replayed, input_at(t.tick()));
    }
    assert_eq!(tick, NetworkTick::new(200));
    // The same as simulating straight from the server's value.
    let mut straight = server_value;
    for t in 197..=200u64 {
        straight = sim(straight, input_at(t));
    }
    assert_eq!(replayed, straight);
    assert_ne!(replayed, history[&200]);
}

#[test]
fn rewind_without_correction_reproduces_the_state() {
    let mut history = vec![1i64];
    for t in 1..=20u64 {
        let s = sim(*history.last().unwrap(), input_at(t));
        history.push(s);
    }
    for target in 0..20u64 {
        let mut s = history[target as usize];
        for t in NetworkSimulationStage::resim_ticks(NetworkTick::new(target), NetworkTick::new(20)) {
            s = sim(s, input_at(t.0));
        }
        assert_eq!(s, history[20]);
    }
}

#[test]
fn tick_counter_moves_by_one() {
    let mut t = NetworkTick::new(41);
    t.increment_tick();
    assert_eq!(t.tick(), 42);
    t.set_tick(7);
    assert_eq!(t, NetworkTick::new(7));
}

#[test]
fn rewind_is_bounded_by_the_snapshots_kept() {
    let now = NetworkTick::new(200);
    let planned = NetworkSimulationStage::plan_rewind(now, NetworkTick::new(180));
    assert_eq!(NetworkSimulationStage::clamp_to_history(now, planned, Some(NetworkTick::new(185))), Some(NetworkTick::new(185)));
    assert_eq!(NetworkSimulationStage::clamp_to_history(now, planned, Some(NetworkTick::new(170))), Some(NetworkTick::new(180)));
    assert_eq!(NetworkSimulationStage::clamp_to_history(now, planned, None), None);
    assert_eq!(NetworkSimulationStage::clamp_to_history(now, planned, Some(NetworkTick::new(200))), None);
    assert_eq!(NetworkSimulationStage::clamp_to_history(now, None, Some(NetworkTick::new(150))), None);
}

#[test]
fn run_frames_counts_whole_steps() {
    let step = tick_hz(32);
    for frames in [vec![step * 7], vec![3, step - 3, step * 5, step / 2, step - step / 2], vec![0, step * 7, 0]] {
        let mut stage = NetworkSimulationStage::new(step);
        let mut tick = Some(NetworkTick::new(100));
        let steps = stage.run_frames(&mut tick, &frames);
        assert_eq!(steps, 7);
        assert_eq!(tick, Some(NetworkTick::new(107)));
        assert_eq!(stage.info.accumulator, 0);
    }
}
