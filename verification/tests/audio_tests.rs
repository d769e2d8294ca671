use flowsynth::behavior::{
    InterleavingOutputNode, NodeBehavior, ProductNode, SinNode, SumNode, WaveformNode,
};
use flowsynth::graph::NodeGraph;
use flowsynth::sample::ZERO_BITS;
use flowsynth::transport::{
    callback_decision, generator_decision, stream_format_ok, CallbackAction, GeneratorAction,
    BLOCK_SAMPLES,
};
use flowsynth::BUFFER_SIZE;

const SR: f64 = 44100.0;

fn waveform(samples: &[f32]) -> NodeBehavior {
    let table: Vec<u32> = samples.iter().map(|s| s.to_bits()).collect();
    NodeBehavior::Waveform(WaveformNode::new(table))
}

fn sine() -> NodeBehavior {
    NodeBehavior::Sin(SinNode::new())
}

fn output() -> NodeBehavior {
    NodeBehavior::InterleavingOutput(InterleavingOutputNode::new())
}

#[test]
fn silence_scenario() {
    // an empty graph stays silent over many ticks, and a starved callback
    // writes zeros
    let mut g = NodeGraph::new();
    for _ in 0..10 {
        g.update();
        let block = g.output_block();
        assert_eq!(block.len(), 2 * BUFFER_SIZE);
        assert!(block.iter().all(|&s| s == ZERO_BITS));
    }
    assert_eq!(callback_decision(0, 2 * BUFFER_SIZE), CallbackAction::WriteZeros);
}

#[test]
fn dc_scenario() {
    // one constant 0.5 into both stereo sides gives a capture of all 0.5
    let mut g = NodeGraph::new();
    let w = g.add_node("dc", waveform(&[0.5]));
    let out = g.add_node("out", output());
    g.connect(w, 0, out, 0).unwrap();
    g.connect(w, 0, out, 1).unwrap();
    g.update();
    let block = g.output_block();
    assert_eq!(block.len(), 2 * BUFFER_SIZE);
    assert!(block.iter().all(|&s| s == 0.5f32.to_bits()));
}

#[test]
fn pure_tone_scenario() {
    // 440 Hz into the oscillator: every sample tracks the ideal sine
    let mut g = NodeGraph::new();
    let w = g.add_node("freq", waveform(&[440.0]));
    let s = g.add_node("osc", sine());
    let out = g.add_node("out", output());
    g.connect(w, 0, s, 0).unwrap();
    g.connect(s, 0, out, 0).unwrap();
    g.connect(s, 0, out, 1).unwrap();
    for b in 0..4usize {
        g.update();
        let block = g.output_block();
        for i in 0..BUFFER_SIZE {
            let n = (b * BUFFER_SIZE + i) as f64;
            let expect = (2.0 * std::f64::consts::PI * 440.0 * n / SR).sin();
            let left = f32::from_bits(block[2 * i]) as f64;
            let right = f32::from_bits(block[2 * i + 1]) as f64;
            assert!((left - expect).abs() < 1e-5, "sample {} off: {} vs {}", n, left, expect);
            assert_eq!(block[2 * i], block[2 * i + 1]);
            assert!((right - expect).abs() < 1e-5);
        }
    }
}

#[test]
fn am_scenario() {
    // a 400 Hz carrier multiplied by a 0.87 Hz modulator
    let mut g = NodeGraph::new();
    let wc = g.add_node("carrier_freq", waveform(&[400.0]));
    let carrier = g.add_node("carrier", sine());
    let wm = g.add_node("mod_freq", waveform(&[0.87]));
    let modulator = g.add_node("mod", sine());
    let prod = g.add_node("amp", NodeBehavior::Product(ProductNode::new(2)));
    let out = g.add_node("out", output());
    g.connect(wc, 0, carrier, 0).unwrap();
    g.connect(wm, 0, modulator, 0).unwrap();
    g.connect(carrier, 0, prod, 0).unwrap();
    g.connect(modulator, 0, prod, 1).unwrap();
    g.connect(prod, 0, out, 0).unwrap();
    g.connect(prod, 0, out, 1).unwrap();
    g.update();
    let block = g.output_block();
    let s0 = f32::from_bits(block[0]) as f64;
    assert_eq!(s0, 0.0, "sin(0) * sin(0) is exactly zero");
    let s1 = f32::from_bits(block[2]) as f64;
    let expect = (2.0 * std::f64::consts::PI * 400.0 / SR).sin()
        * (2.0 * std::f64::consts::PI * 0.87 / SR).sin();
    assert!((s1 - expect).abs() < 1e-6, "{} vs {}", s1, expect);
}

#[test]
fn edit_freezes_oscillator_scenario() {
    // disconnecting the frequency feed stops the phase accumulator, so
    // the output settles to DC at the last phase
    let mut g = NodeGraph::new();
    let w = g.add_node("freq", waveform(&[440.0]));
    let s = g.add_node("osc", sine());
    let out = g.add_node("out", output());
    g.connect(w, 0, s, 0).unwrap();
    g.connect(s, 0, out, 0).unwrap();
    g.connect(s, 0, out, 1).unwrap();
    g.update();
    g.update();
    // the edit happens between blocks, never mid-block
    g.disconnect(w, 0, s, 0).unwrap();
    let phase = (440.0 * 2.0 * BUFFER_SIZE as f64) % SR;
    let dc = (2.0 * std::f64::consts::PI * phase / SR).sin();
    for _ in 0..3 {
        g.update();
        let block = g.output_block();
        for i in 0..BUFFER_SIZE {
            let v = f32::from_bits(block[2 * i]) as f64;
            assert!((v - dc).abs() < 1e-5, "{} vs {}", v, dc);
        }
        assert!(block.iter().all(|&s2| s2 == block[0]));
    }
}

#[test]
fn graph_without_output_node_is_silent() {
    let mut g = NodeGraph::new();
    let w = g.add_node("freq", waveform(&[440.0]));
    let s = g.add_node("osc", sine());
    g.connect(w, 0, s, 0).unwrap();
    for _ in 0..3 {
        g.update();
        assert!(g.output_block().iter().all(|&v| v == ZERO_BITS));
    }
}

#[test]
fn ticks_are_deterministic() {
    let build = || {
        let mut g = NodeGraph::new();
        let w = g.add_node("freq", waveform(&[123.0, 77.0]));
        let s = g.add_node("osc", sine());
        let m = g.add_node("sum", NodeBehavior::Sum(SumNode::new(2)));
        let out = g.add_node("out", output());
        g.connect(w, 0, s, 0).unwrap();
        g.connect(s, 0, m, 0).unwrap();
        g.connect(w, 0, m, 1).unwrap();
        g.connect(m, 0, out, 0).unwrap();
        g.connect(m, 0, out, 1).unwrap();
        g
    };
    let mut g1 = build();
    let mut g2 = build();
    for _ in 0..3 {
        g1.update();
        g2.update();
        assert_eq!(g1.output_block(), g2.output_block());
    }
}

#[test]
fn waveform_output_ignores_tick_count() {
    let mut g = NodeGraph::new();
    let w = g.add_node("w", waveform(&[0.25, -0.5]));
    let out = g.add_node("out", output());
    g.connect(w, 0, out, 0).unwrap();
    g.connect(w, 0, out, 1).unwrap();
    g.update();
    let first = g.output_block();
    for _ in 0..3 {
        g.update();
        assert_eq!(g.output_block(), first);
    }
}

#[test]
fn summing_adds_per_sample() {
    let mut g = NodeGraph::new();
    let a = g.add_node("a", waveform(&[0.5]));
    let b = g.add_node("b", waveform(&[0.25]));
    let m = g.add_node("m", NodeBehavior::Sum(SumNode::new(2)));
    let out = g.add_node("out", output());
    g.connect(a, 0, m, 0).unwrap();
    g.connect(b, 0, m, 1).unwrap();
    g.connect(m, 0, out, 0).unwrap();
    g.connect(m, 0, out, 1).unwrap();
    g.update();
    let block = g.output_block();
    assert!(block.iter().all(|&s| s == 0.75f32.to_bits()));
}

#[test]
fn product_multiplies_per_sample() {
    let mut g = NodeGraph::new();
    let a = g.add_node("a", waveform(&[0.5]));
    let b = g.add_node("b", waveform(&[0.5]));
    let m = g.add_node("m", NodeBehavior::Product(ProductNode::new(2)));
    let out = g.add_node("out", output());
    g.connect(a, 0, m, 0).unwrap();
    g.connect(b, 0, m, 1).unwrap();
    g.connect(m, 0, out, 0).unwrap();
    g.connect(m, 0, out, 1).unwrap();
    g.update();
    let block = g.output_block();
    assert!(block.iter().all(|&s| s == 0.25f32.to_bits()));
}

#[test]
fn oscillator_phase_wraps_at_sample_rate() {
    // feeding three quarters of the sample rate walks the phase through
    // 0, 3/4 SR, 1/2 SR, 1/4 SR, ... exercising the modulo wrap
    let mut g = NodeGraph::new();
    let w = g.add_node("freq", waveform(&[33075.0]));
    let s = g.add_node("osc", sine());
    let out = g.add_node("out", output());
    g.connect(w, 0, s, 0).unwrap();
    g.connect(s, 0, out, 0).unwrap();
    g.connect(s, 0, out, 1).unwrap();
    g.update();
    let block = g.output_block();
    let expect = [0.0f64, -1.0, 0.0, 1.0];
    for i in 0..8 {
        let v = f32::from_bits(block[2 * i]) as f64;
        assert!((v - expect[i % 4]).abs() < 1e-5, "sample {}: {} vs {}", i, v, expect[i % 4]);
    }
}

#[test]
fn transport_decisions_follow_the_block_boundary() {
    assert_eq!(BLOCK_SAMPLES, 2 * BUFFER_SIZE);
    assert_eq!(generator_decision(2 * BUFFER_SIZE - 1), GeneratorAction::Park);
    assert_eq!(generator_decision(2 * BUFFER_SIZE), GeneratorAction::RunBlock);
    assert_eq!(generator_decision(usize::MAX), GeneratorAction::RunBlock);
    assert_eq!(callback_decision(511, 512), CallbackAction::WriteZeros);
    assert_eq!(callback_decision(512, 512), CallbackAction::PopSamples);
    assert_eq!(callback_decision(1024, 512), CallbackAction::PopSamples);
}

#[test]
fn stream_format_must_match_exactly() {
    assert!(stream_format_ok(2, 44100, BUFFER_SIZE));
    assert!(!stream_format_ok(1, 44100, BUFFER_SIZE));
    assert!(!stream_format_ok(2, 48000, BUFFER_SIZE));
    assert!(!stream_format_ok(2, 44100, BUFFER_SIZE / 2));
}
