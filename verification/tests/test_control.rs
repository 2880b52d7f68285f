use rust_audio_api::control::{parameter_action, NodeKind, ParameterAction, ParameterKind};

#[test]
fn gain_reaches_gain_oscillator_and_mixer() {
    for k in [NodeKind::Gain, NodeKind::Oscillator, NodeKind::Mixer] {
        assert_eq!(parameter_action(k, ParameterKind::Gain), Some(ParameterAction::SetGain));
    }
    assert_eq!(parameter_action(NodeKind::Filter, ParameterKind::Gain), None);
    assert_eq!(parameter_action(NodeKind::Delay, ParameterKind::Gain), None);
}

#[test]
fn delay_and_filter_settings_route_to_their_nodes() {
    assert_eq!(
        parameter_action(NodeKind::Delay, ParameterKind::DelayUnits),
        Some(ParameterAction::SetDelayUnits)
    );
    assert_eq!(parameter_action(NodeKind::Filter, ParameterKind::Cutoff), Some(ParameterAction::SetCutoff));
    assert_eq!(parameter_action(NodeKind::Filter, ParameterKind::Q), Some(ParameterAction::SetQ));
    assert_eq!(parameter_action(NodeKind::Gain, ParameterKind::DelayUnits), None);
}

#[test]
fn convolver_and_unused_parameters_are_ignored() {
    for p in [
        ParameterKind::Gain,
        ParameterKind::Frequency,
        ParameterKind::Switch,
        ParameterKind::DelayUnits,
        ParameterKind::Cutoff,
        ParameterKind::Q,
    ] {
        assert_eq!(parameter_action(NodeKind::Convolver, p), None);
    }
    assert_eq!(parameter_action(NodeKind::Oscillator, ParameterKind::Frequency), None);
    assert_eq!(parameter_action(NodeKind::Oscillator, ParameterKind::Switch), None);
}
