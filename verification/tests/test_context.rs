use rust_audio_api::context::{channel_source, ChannelSource, FrameCursor, PerformanceMonitor};

#[test]
fn test_performance_monitor_default() {
    let monitor = PerformanceMonitor::default();
    assert_eq!(
        monitor
            .late_callbacks
            .load(std::sync::atomic::Ordering::Relaxed),
        0
    );
    assert_eq!(
        monitor
            .current_load_percent
            .load(std::sync::atomic::Ordering::Relaxed),
        0
    );
}

#[test]
fn performance_monitor_clones_share_counters() {
    let monitor = PerformanceMonitor::default();
    let other = monitor.clone();
    other
        .late_callbacks
        .fetch_add(3, std::sync::atomic::Ordering::Relaxed);
    assert_eq!(
        monitor
            .late_callbacks
            .load(std::sync::atomic::Ordering::Relaxed),
        3
    );
}

#[test]
fn frame_cursor_pulls_every_unit() {
    let mut cursor = FrameCursor::new();
    for k in 0..300usize {
        let (pull, index) = cursor.next_frame();
        assert_eq!(pull, k % 64 == 0);
        assert_eq!(index, k % 64);
    }
}

#[test]
fn channel_mapping() {
    assert_eq!(channel_source(1, 0), ChannelSource::MonoMix);
    assert_eq!(channel_source(2, 0), ChannelSource::Left);
    assert_eq!(channel_source(2, 1), ChannelSource::Right);
    assert_eq!(channel_source(6, 1), ChannelSource::Right);
    assert_eq!(channel_source(6, 4), ChannelSource::Silence);
}

#[test]
fn stream_pulls_one_unit_every_64_frames_whatever_the_buffer_sizes() {
    let mut cursor = FrameCursor::new();
    let mut pulls = 0usize;
    let mut m = 0usize;
    for &chunk in &[1usize, 63, 64, 100, 7, 256, 3, 500] {
        for _ in 0..chunk {
            let (pull, index) = cursor.next_frame();
            if pull {
                pulls += 1;
            }
            assert_eq!(pull, m % 64 == 0);
            assert_eq!(index, m % 64);
            assert_eq!(pulls, m / 64 + 1);
            m += 1;
        }
    }
    assert_eq!(pulls, (m + 63) / 64);
}
