//! Routing of control messages: which kind of node takes which parameter.
use vstd::prelude::*;

verus! {

/// The kinds of audio node that a graph holds.
#[derive(Debug, Clone, Copy, PartialEq, Eq, Structural)]
pub enum NodeKind {
    /// Adjusts the volume of the audio signal.
    Gain,
    /// Generates periodic waveforms.
    Oscillator,
    /// Captures audio from an input device.
    Microphone,
    /// Reads audio data from a file.
    File,
    /// Mixes several audio signals together.
    Mixer,
    /// Delays the audio signal by whole blocks.
    Delay,
    /// Convolves the signal with an impulse response.
    Convolver,
    /// Applies biquad filtering.
    Filter,
}

/// The kinds of parameter that a control message carries.
#[derive(Debug, Clone, Copy, PartialEq, Eq, Structural)]
pub enum ParameterKind {
    /// Gain/volume.
    Gain,
    /// Frequency in Hz.
    Frequency,
    /// On/off switch.
    Switch,
    /// Delay time in blocks.
    DelayUnits,
    /// Filter cutoff frequency.
    Cutoff,
    /// Filter Q factor.
    Q,
}

/// What a node does with a parameter it accepts.
#[derive(Debug, Clone, Copy, PartialEq, Eq, Structural)]
pub enum ParameterAction {
    /// Set the node's gain.
    SetGain,
    /// Set the delay line's delay in blocks.
    SetDelayUnits,
    /// Set the filter's cutoff and recompute its coefficients.
    SetCutoff,
    /// Set the filter's Q and recompute its coefficients.
    SetQ,
}

/// The routing table: gain goes to gain, oscillator and mixer nodes, delay
/// units to delay lines, cutoff and Q to filters. Every other pair is
/// ignored; in particular a convolver takes no parameter, since changing it
/// would mean transforming its impulse response again.
pub open spec fn parameter_route(node: NodeKind, parameter: ParameterKind) -> Option<ParameterAction> {
    match (node, parameter) {
        (NodeKind::Gain, ParameterKind::Gain) => Some(ParameterAction::SetGain),
        (NodeKind::Oscillator, ParameterKind::Gain) => Some(ParameterAction::SetGain),
        (NodeKind::Mixer, ParameterKind::Gain) => Some(ParameterAction::SetGain),
        (NodeKind::Delay, ParameterKind::DelayUnits) => Some(ParameterAction::SetDelayUnits),
        (NodeKind::Filter, ParameterKind::Cutoff) => Some(ParameterAction::SetCutoff),
        (NodeKind::Filter, ParameterKind::Q) => Some(ParameterAction::SetQ),
        _ => None,
    }
}

/// What a node of kind `node` does with a parameter of kind `parameter`, as
/// `parameter_route` states; `None` where the message is ignored.
pub fn parameter_action(node: NodeKind, parameter: ParameterKind) -> (r: Option<ParameterAction>)
    ensures
        r == parameter_route(node, parameter),
{
    match (node, parameter) {
        (NodeKind::Gain, ParameterKind::Gain) => Some(ParameterAction::SetGain),
        (NodeKind::Oscillator, ParameterKind::Gain) => Some(ParameterAction::SetGain),
        (NodeKind::Mixer, ParameterKind::Gain) => Some(ParameterAction::SetGain),
        (NodeKind::Delay, ParameterKind::DelayUnits) => Some(ParameterAction::SetDelayUnits),
        (NodeKind::Filter, ParameterKind::Cutoff) => Some(ParameterAction::SetCutoff),
        (NodeKind::Filter, ParameterKind::Q) => Some(ParameterAction::SetQ),
        _ => None,
    }
}

/// Law: a parameter changes a node only where the node has that setting:
/// each action is taken only by the node kinds that hold the setting, and
/// frequency and switch parameters change no node.
pub proof fn lemma_route_targets(node: NodeKind, parameter: ParameterKind)
    ensures
        parameter_route(node, parameter) == Some(ParameterAction::SetGain) ==> (node == NodeKind::Gain
            || node == NodeKind::Oscillator || node == NodeKind::Mixer) && parameter == ParameterKind::Gain,
        parameter_route(node, parameter) == Some(ParameterAction::SetDelayUnits) ==> node == NodeKind::Delay
            && parameter == ParameterKind::DelayUnits,
        parameter_route(node, parameter) == Some(ParameterAction::SetCutoff) ==> node == NodeKind::Filter
            && parameter == ParameterKind::Cutoff,
        parameter_route(node, parameter) == Some(ParameterAction::SetQ) ==> node == NodeKind::Filter
            && parameter == ParameterKind::Q,
        parameter == ParameterKind::Frequency || parameter == ParameterKind::Switch ==> parameter_route(
            node,
            parameter,
        ) is None,
        node == NodeKind::Convolver || node == NodeKind::Microphone || node == NodeKind::File
            ==> parameter_route(node, parameter) is None,
{
}

} // verus!
