use rust_audio_api::nodes::convolver::{
    carry_capacity, carry_write_window, due_partition_indices, history_capacity, layout_fits,
    next_power_of_two, partition_layout, ring_index, is_due, should_drop_task, take_slice_padded, ConvolverConfig, PartitionSpan,
};

fn span(size: usize, offset: usize) -> PartitionSpan {
    PartitionSpan { size, offset }
}

#[test]
fn default_config() {
    let c = ConvolverConfig::default();
    assert!(c.stereo);
    assert_eq!(c.growth_exponent, 2);
    assert_eq!(c.block_0_size, 256);
}

#[test]
fn layout_grows_partitions() {
    let spans = partition_layout(1000, 2, 256);
    assert_eq!(spans, vec![span(128, 256), span(256, 384), span(512, 640)]);
}

#[test]
fn layout_is_empty_when_head_block_holds_the_ir() {
    assert_eq!(partition_layout(256, 2, 256), Vec::<PartitionSpan>::new());
    assert_eq!(partition_layout(1, 2, 256), Vec::<PartitionSpan>::new());
    assert_eq!(partition_layout(100, 0, 256), Vec::<PartitionSpan>::new());
}

#[test]
fn layout_with_growth_one_keeps_size() {
    let spans = partition_layout(300, 1, 100);
    assert_eq!(spans, vec![span(64, 100), span(64, 164), span(64, 228), span(64, 292)]);
}

#[test]
fn layout_tiles_the_tail() {
    for &(len, g, b0) in &[(5000usize, 2u32, 256usize), (77777, 3, 64), (4096, 4, 1024)] {
        let spans = partition_layout(len, g, b0);
        assert_eq!(spans[0].offset, b0);
        for w in spans.windows(2) {
            assert_eq!(w[1].offset, w[0].offset + w[0].size);
            assert!(w[1].size >= w[0].size);
        }
        let last = spans[spans.len() - 1];
        assert!(last.offset < len && last.offset + last.size >= len);
    }
}

#[test]
fn powers_of_two() {
    assert_eq!(next_power_of_two(0), 1);
    assert_eq!(next_power_of_two(1), 1);
    assert_eq!(next_power_of_two(5), 8);
    assert_eq!(next_power_of_two(64), 64);
    assert_eq!(next_power_of_two(65), 128);
}

#[test]
fn ring_capacities() {
    assert_eq!(carry_capacity(1000, 512), 65536);
    assert_eq!(carry_capacity(100000, 4096), 524288);
    assert_eq!(history_capacity(512), 65536);
    assert_eq!(history_capacity(100000), 131072);
}

#[test]
fn padded_slices() {
    let ir = [[1.0f32, 2.0], [3.0, 4.0]];
    assert_eq!(take_slice_padded(&ir, 1, 3, 1, 0.0), vec![4.0, 0.0, 0.0]);
    assert_eq!(take_slice_padded(&ir, 0, 2, 0, 0.0), vec![1.0, 3.0]);
    assert_eq!(take_slice_padded(&ir, 5, 2, 0, 0.0), vec![0.0, 0.0]);
}

#[test]
fn due_partitions_follow_block_sizes() {
    let spans = vec![span(128, 256), span(256, 384)];
    assert_eq!(due_partition_indices(0, &spans), Vec::<usize>::new());
    assert_eq!(due_partition_indices(64, &spans), vec![0]);
    assert_eq!(due_partition_indices(192, &spans), vec![0, 1]);
}

#[test]
fn carry_windows() {
    assert_eq!(carry_write_window(0, 0, 65536, 256, 128), (192, 0));
    assert_eq!(carry_write_window(10, 1000, 65536, 256, 128), (202, 862));
    assert_eq!(carry_write_window(65000, 5, 65536, 0, 4096), (60968, 4637));
}

#[test]
fn layout_fit_checks() {
    assert!(layout_fits(48000, 2, 256));
    assert!(layout_fits(100, 0, 256));
    assert!(!layout_fits(1000, 0, 256));
    assert!(!layout_fits(usize::MAX, 2, 0));
}

#[test]
fn layout_with_huge_growth_and_short_ir() {
    assert!(layout_fits(0, 0x8000_0000, 256));
    assert!(layout_fits(256, u32::MAX, 256));
    assert_eq!(partition_layout(0, 0x8000_0000, 256), Vec::<PartitionSpan>::new());
    assert_eq!(partition_layout(256, u32::MAX, 256), Vec::<PartitionSpan>::new());
    assert!(!layout_fits(257, u32::MAX, 256));
}

#[test]
fn partitions_start_no_earlier_than_their_size() {
    for &(len, g, b0) in &[(48000usize, 2u32, 256usize), (77777, 3, 192), (4096, 4, 1024)] {
        for s in partition_layout(len, g, b0) {
            assert!(s.size <= s.offset);
        }
    }
}

#[test]
fn timely_results_skip_nothing() {
    assert_eq!(carry_write_window(0, 128, 65536, 256, 128), (192, 0));
    assert_eq!(carry_write_window(0, 129, 65536, 256, 128), (192, 1));
    assert_eq!(carry_write_window(65500, 20, 65536, 256, 128), (65692, 0));
}

#[test]
fn ring_positions_wrap_at_capacity() {
    assert_eq!(ring_index(0, 65536), 0);
    assert_eq!(ring_index(65535, 65536), 65535);
    assert_eq!(ring_index(65536 + 64, 65536), 64);
    assert_eq!(ring_index(65500 + 100, 65536), 64);
    assert_eq!(ring_index(usize::MAX, 1), 0);
}

#[test]
fn due_checks_match_the_due_list() {
    let spans = vec![span(128, 256), span(256, 384), span(512, 640)];
    for ptr in (0..4096usize).step_by(64) {
        let listed = due_partition_indices(ptr, &spans);
        let asked: Vec<usize> = (0..spans.len()).filter(|&i| is_due(ptr, spans[i].size)).collect();
        assert_eq!(listed, asked);
    }
    assert!(is_due(64, 128));
    assert!(!is_due(0, 128));
    assert!(is_due(448, 512));
    assert!(!is_due(0, 0));
}

#[test]
fn stale_tasks_are_dropped() {
    assert!(!should_drop_task(0, 2048));
    assert!(!should_drop_task(8, 2048));
    assert!(should_drop_task(9, 2048));
    assert!(!should_drop_task(2, 2));
    assert!(should_drop_task(3, 4));
    assert!(!should_drop_task(3, 6));
}
