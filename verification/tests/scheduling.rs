use neural_compiler::{Activation, Layer, LayerSchedule, NeuralCompiler, QuantMode};

fn layer(inputs: usize, outputs: usize) -> Layer {
    Layer {
        id: 0,
        name: "layer".to_string(),
        input_channels: inputs,
        output_channels: outputs,
        kernel_size: None,
        weights: vec![],
        biases: vec![],
        quant_mode: QuantMode::INT8,
        activation: Activation::Identity,
        cycles_estimate: 0,
        memory_bytes: 0,
    }
}

fn schedule(layers: &[Layer], bram_size_kb: usize) -> LayerSchedule {
    NeuralCompiler::new(QuantMode::INT8).schedule(layers, bram_size_kb)
}

#[test]
fn pipelined_pair() {
    let result = schedule(&[layer(64, 32), layer(32, 16)], 256);
    assert_eq!(result.layers[0].layer_id, 0);
    assert_eq!((result.layers[0].start_cycle, result.layers[0].end_cycle), (0, 3072));
    assert!(!result.layers[0].can_pipeline);
    assert_eq!(result.layers[1].layer_id, 1);
    assert_eq!((result.layers[1].start_cycle, result.layers[1].end_cycle), (3072, 3584));
    assert!(result.layers[1].can_pipeline);
    assert_eq!(result.layers[1].memory_at_start, 2080);
    assert_eq!(result.total_cycles, 3328);
    assert_eq!(result.peak_memory_bytes, 4 * (2080 + 528));
    assert_eq!(result.pipeline_depth, 1);
}

#[test]
fn nothing_to_schedule() {
    let result = schedule(&[], usize::MAX);
    assert_eq!(result.layers.len(), 0);
    assert_eq!(result.total_cycles, 0);
    assert_eq!(result.peak_memory_bytes, 0);
    assert_eq!(result.pipeline_depth, 0);
}

#[test]
fn odd_counts_are_cut() {
    let result = schedule(&[layer(1, 3), layer(3, 3)], 1);
    assert_eq!(result.layers[0].end_cycle, 4);
    assert_eq!(result.layers[1].end_cycle, 4 + 9);
    assert_eq!(result.total_cycles, 4 + 4);
}

#[test]
fn unloading_takes_the_two_oldest() {
    let layers: Vec<Layer> = (0..6).map(|_| layer(20, 30)).collect();
    let result = schedule(&layers, 1);
    let held: Vec<usize> = result.layers.iter().map(|l| l.memory_at_start).collect();
    assert_eq!(held, vec![0, 630, 1260, 1260, 630, 0]);
    assert_eq!(result.peak_memory_bytes, 4 * 1890);
    assert_eq!(result.pipeline_depth, 0);
}

#[test]
fn pipelined_layers_stay_loaded() {
    let layers: Vec<Layer> = (0..6).map(|_| layer(25, 25)).collect();
    let result = schedule(&layers, 1);
    let held: Vec<usize> = result.layers.iter().map(|l| l.memory_at_start).collect();
    assert_eq!(held, vec![0, 650, 1300, 1300, 1300, 1300]);
    assert_eq!(result.pipeline_depth, 5);
}

#[test]
fn everything_held_when_everything_fits() {
    let layers: Vec<Layer> = (0..4).map(|_| layer(4, 8)).collect();
    let result = schedule(&layers, 1);
    let held: Vec<usize> = result.layers.iter().map(|l| l.memory_at_start).collect();
    assert_eq!(held, vec![0, 40, 80, 120]);
    assert_eq!(result.peak_memory_bytes, 4 * 160);
}

#[test]
fn starts_are_in_order() {
    let layers = [layer(3, 7), layer(7, 2), layer(5, 5), layer(5, 9), layer(9, 1)];
    let result = schedule(&layers, 1);
    for pair in result.layers.windows(2) {
        assert!(pair[0].start_cycle <= pair[1].start_cycle);
        assert!(pair[1].start_cycle <= pair[0].end_cycle);
    }
    assert!(result.total_cycles <= result.layers[4].end_cycle);
}

#[test]
fn large_counts_round_as_doubles() {
    for count in [
        (1usize << 53) + 1,
        (1usize << 53) + 3,
        (1usize << 54) - 1,
        6004799503160661,
        6004799503160663,
        9007199254740991,
        (1usize << 60) + 12345,
        (1usize << 61) - 1,
    ] {
        let result = schedule(&[layer(count, 1)], 1);
        assert_eq!(result.layers[0].end_cycle, (count as f64 * 1.5) as u64, "{}", count);
        let result = schedule(&[layer(0, count), layer(count, 1)], 1);
        assert_eq!(result.layers[1].end_cycle, count as f64 as u64, "{}", count);
    }
}
