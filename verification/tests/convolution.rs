use oscen::convolution::{
    ir_source_channel, stage_segments, BlockSchedule, LONG_BLOCK_SIZE, LONG_STAGE_PHASE_OFFSET,
    SHORT_BLOCK_SIZE,
};

#[test]
fn schedule_runs_its_block_on_the_last_sample_of_each_block() {
    let mut s = BlockSchedule::new(4, 0);
    assert_eq!(s.latency_samples(), 4);
    assert_eq!(s.samples_until_next_block(), 4);
    let mut runs = Vec::new();
    let mut reads = Vec::new();
    for _ in 0..10 {
        let (read, run) = s.advance();
        runs.push(run);
        reads.push(read);
    }
    assert_eq!(
        runs,
        vec![false, false, false, true, false, false, false, true, false, false]
    );
    assert_eq!(
        reads,
        vec![None, None, None, None, Some(0), Some(1), Some(2), Some(3), Some(0), Some(1)]
    );
    assert_eq!(s.samples_until_next_block(), 2);
}

#[test]
fn phase_offset_moves_the_block_earlier_but_not_the_latency() {
    let mut s = BlockSchedule::new(4, 1);
    assert_eq!(s.latency_samples(), 4);
    assert_eq!(s.samples_until_next_block(), 3);
    let mut runs = Vec::new();
    let mut reads = Vec::new();
    for _ in 0..8 {
        let (read, run) = s.advance();
        runs.push(run);
        reads.push(read);
    }
    assert_eq!(runs, vec![false, false, true, false, false, false, true, false]);
    assert_eq!(
        reads,
        vec![None, None, None, None, Some(1), Some(2), Some(3), Some(0)]
    );
}

#[test]
fn long_stage_starts_half_a_short_block_early() {
    let s = BlockSchedule::new(LONG_BLOCK_SIZE, LONG_STAGE_PHASE_OFFSET);
    assert_eq!(LONG_STAGE_PHASE_OFFSET, 16);
    assert_eq!(s.samples_until_next_block(), 496);
    assert_eq!(s.latency_samples(), 512);
}

#[test]
fn engine_stages_never_run_their_blocks_on_one_sample() {
    let mut short = BlockSchedule::new(SHORT_BLOCK_SIZE, 0);
    let mut long = BlockSchedule::new(LONG_BLOCK_SIZE, LONG_STAGE_PHASE_OFFSET);
    let mut short_runs = 0;
    let mut long_runs = 0;
    for _ in 0..8192 {
        let (_, a) = short.advance();
        let (_, b) = long.advance();
        assert!(!(a && b));
        short_runs += a as usize;
        long_runs += b as usize;
    }
    assert_eq!(short_runs, 256);
    assert_eq!(long_runs, 16);
}

#[test]
fn segments_split_an_impulse_response_at_the_block_sizes() {
    assert_eq!(stage_segments(0), ((0, 0), (0, 0), (0, 0)));
    assert_eq!(stage_segments(20), ((0, 20), (20, 20), (20, 20)));
    assert_eq!(stage_segments(100), ((0, 32), (32, 100), (100, 100)));
    assert_eq!(stage_segments(512), ((0, 32), (32, 512), (512, 512)));
    assert_eq!(stage_segments(1000), ((0, 32), (32, 512), (512, 1000)));
}

#[test]
fn ir_channels_map_to_engines() {
    assert_eq!(ir_source_channel(0, 1), 0);
    assert_eq!(ir_source_channel(3, 1), 0);
    assert_eq!(ir_source_channel(0, 2), 0);
    assert_eq!(ir_source_channel(1, 2), 1);
    assert_eq!(ir_source_channel(1, 4), 1);
    assert_eq!(ir_source_channel(5, 3), 2);
}
