use rust_audio_api::nodes::delay::DelayNode;
use rust_audio_api::types::AUDIO_UNIT_SIZE;

type AudioUnit = [[f32; 2]; AUDIO_UNIT_SIZE];

fn empty_audio_unit() -> AudioUnit {
    [[0.0; 2]; AUDIO_UNIT_SIZE]
}

#[test]
fn test_delay_node_initialization() {
    let delay_node = DelayNode::new(10, 5, empty_audio_unit());
    let _ = delay_node;
}

#[test]
fn test_delay_node_delay_behavior() {
    let mut delay_node = DelayNode::new(10, 2, empty_audio_unit());
    let mut output = empty_audio_unit();
    let mut input1 = empty_audio_unit();
    let mut input2 = empty_audio_unit();

    for i in 0..AUDIO_UNIT_SIZE {
        input1[i] = [1.0, 1.0];
        input2[i] = [2.0, 2.0];
    }

    delay_node.process(Some(&input1), &mut output);
    assert_eq!(output, empty_audio_unit());

    delay_node.process(Some(&input2), &mut output);
    assert_eq!(output, empty_audio_unit());

    delay_node.process(None, &mut output);
    assert_eq!(output, input1);

    delay_node.process(None, &mut output);
    assert_eq!(output, input2);
}

#[test]
fn test_delay_node_set_delay_units_increase() {
    let mut delay_node = DelayNode::new(10, 1, empty_audio_unit());
    let mut output = empty_audio_unit();
    let mut input1 = empty_audio_unit();
    input1[0] = [1.0, 1.0];

    delay_node.process(Some(&input1), &mut output);
    assert_eq!(output, empty_audio_unit());

    delay_node.set_delay_units(3);

    delay_node.process(None, &mut output);
    assert_eq!(output, empty_audio_unit());

    delay_node.process(None, &mut output);
    assert_eq!(output, empty_audio_unit());

    delay_node.process(None, &mut output);
    assert_eq!(output, input1);
}

#[test]
fn test_delay_node_set_delay_units_decrease() {
    let mut delay_node = DelayNode::new(10, 2, empty_audio_unit());
    let mut output = empty_audio_unit();
    let mut input1 = empty_audio_unit();
    input1[0] = [1.0, 1.0];

    delay_node.process(Some(&input1), &mut output);
    assert_eq!(output, empty_audio_unit());

    delay_node.set_delay_units(0);

    let mut input2 = empty_audio_unit();
    input2[0] = [2.0, 2.0];

    delay_node.process(Some(&input2), &mut output);
    assert_eq!(output, input2);
}

#[test]
fn delay_line_outputs_inputs_late_by_its_delay() {
    let mut line = DelayNode::new(8, 3, -1i32);
    let mut outputs = Vec::new();
    for x in 0..10i32 {
        let mut out = 0i32;
        line.process(Some(&x), &mut out);
        outputs.push(out);
    }
    assert_eq!(outputs, vec![-1, -1, -1, 0, 1, 2, 3, 4, 5, 6]);
}

#[test]
fn delay_line_caps_delay_at_maximum() {
    let mut line = DelayNode::new(2, 7, 0u8);
    let mut out = 9u8;
    line.process(Some(&5), &mut out);
    assert_eq!(out, 0);
    line.process(Some(&6), &mut out);
    assert_eq!(out, 0);
    line.process(Some(&7), &mut out);
    assert_eq!(out, 5);

    line.set_delay_units(100);
    line.process(None, &mut out);
    assert_eq!(out, 6);
}

#[test]
fn delay_line_with_zero_delay_passes_input_through() {
    let mut line = DelayNode::new(4, 0, 0u16);
    let mut out = 0u16;
    line.process(Some(&42), &mut out);
    assert_eq!(out, 42);
    line.process(None, &mut out);
    assert_eq!(out, 0);
}

#[test]
fn delay_line_decrease_drops_oldest_blocks() {
    let mut line = DelayNode::new(10, 0, 0i64);
    line.set_delay_units(3);
    let mut out = 0i64;
    for x in 1..=3i64 {
        line.process(Some(&x), &mut out);
        assert_eq!(out, 0);
    }
    // queue now holds 1, 2, 3; dropping to one block keeps only 3
    line.set_delay_units(1);
    line.process(Some(&4), &mut out);
    assert_eq!(out, 3);
    line.process(Some(&5), &mut out);
    assert_eq!(out, 4);
}

#[test]
fn after_a_resize_every_input_comes_out_exactly_the_new_delay_late() {
    let mut line = DelayNode::new(8, 2, 0i64);
    let mut out = 0i64;
    line.process(Some(&1), &mut out);
    line.process(Some(&2), &mut out);
    // Pending: [1, 2]; grow to 5: three silent blocks go in front.
    line.set_delay_units(5);
    let mut seen = Vec::new();
    for x in 10..20i64 {
        line.process(Some(&x), &mut out);
        seen.push(out);
    }
    assert_eq!(seen, vec![0, 0, 0, 1, 2, 10, 11, 12, 13, 14]);
    // Shrink to 1: only the newest pending block stays.
    line.set_delay_units(1);
    let mut seen = Vec::new();
    for x in 30..34i64 {
        line.process(Some(&x), &mut out);
        seen.push(out);
    }
    assert_eq!(seen, vec![19, 30, 31, 32]);
}
