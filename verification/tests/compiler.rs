use neural_compiler::{
    Activation, Binary32, Binary64, Layer, MetlHeader, MetlLayer, NeuralCompiler, QuantMode,
};

fn singles(values: Vec<f32>) -> Vec<Binary32> {
    values.iter().map(|v| Binary32::from_bits(v.to_bits())).collect()
}

fn double(value: Binary64) -> f64 {
    f64::from_bits(value.bits)
}

fn test_layer() -> Layer {
    Layer {
        id: 0,
        name: "fc1".to_string(),
        input_channels: 64,
        output_channels: 32,
        kernel_size: None,
        weights: singles((0..2048).map(|i| (i % 100) as f32 / 100.0).collect()),
        biases: singles((0..32).map(|i| i as f32 * 0.01).collect()),
        quant_mode: QuantMode::INT8,
        activation: Activation::Relu,
        cycles_estimate: 0,
        memory_bytes: 0,
    }
}

#[test]
fn test_quantize_int8() {
    let compiler = NeuralCompiler::new(QuantMode::INT8);
    let layer = test_layer();
    let qt = compiler.quantize_layer(&layer);
    assert_eq!(qt.quant_bits, 8);
    assert!(double(qt.compression_ratio) > 1.0);
    assert!(qt.quant_size_bytes < qt.original_size_bytes);
}

#[test]
fn test_quantize_int4() {
    let compiler = NeuralCompiler::new(QuantMode::INT4);
    let layer = test_layer();
    let qt = compiler.quantize_layer(&layer);
    assert_eq!(qt.quant_bits, 4);
    assert!(double(qt.compression_ratio) > 1.0);
}

#[test]
fn test_mixed_quantization() {
    let compiler = NeuralCompiler::new(QuantMode::Mixed);
    let small = Layer {
        id: 0,
        name: "small".to_string(),
        input_channels: 8,
        output_channels: 4,
        kernel_size: None,
        weights: singles(vec![1.0; 32]),
        biases: singles(vec![0.0; 4]),
        quant_mode: QuantMode::Mixed,
        activation: Activation::Identity,
        cycles_estimate: 0,
        memory_bytes: 0,
    };
    let big = Layer {
        id: 1,
        name: "big".to_string(),
        input_channels: 64,
        output_channels: 64,
        kernel_size: None,
        weights: singles(vec![1.0; 4096]),
        biases: singles(vec![0.0; 64]),
        quant_mode: QuantMode::Mixed,
        activation: Activation::Relu,
        cycles_estimate: 0,
        memory_bytes: 0,
    };
    let small_q = compiler.quantize_layer(&small);
    let big_q = compiler.quantize_layer(&big);
    assert_eq!(small_q.quant_bits, 8);
    assert_eq!(big_q.quant_bits, 4);
}

#[test]
fn test_compile_binary() {
    let compiler = NeuralCompiler::new(QuantMode::INT8);
    let layer = test_layer();
    let binary = compiler.compile(&[layer]);
    assert_eq!(binary.layers.len(), 1);
    assert!(binary.total_size > 0);
    assert!(double(binary.compression_ratio()) > 1.0);
}

#[test]
fn test_metl_header() {
    let header = MetlHeader::new();
    let bytes = header.to_bytes();
    assert_eq!(&bytes[0..4], &[b'M', b'E', b'T', b'L']);
}

#[test]
fn test_metl_layer() {
    let layer = MetlLayer {
        layer_id: 0,
        op_code: 0,
        input_dim: 64,
        output_dim: 32,
        weight_offset: 0,
        weight_size: 1024,
        bias_offset: 1024,
        activation: 1,
        cycles: 3000,
    };
    let bytes = layer.to_bytes();
    assert_eq!(bytes.len(), 24);
}

#[test]
fn test_schedule() {
    let compiler = NeuralCompiler::new(QuantMode::INT8);
    let layers = vec![
        test_layer(),
        Layer {
            id: 1,
            name: "fc2".to_string(),
            input_channels: 32,
            output_channels: 16,
            kernel_size: None,
            weights: singles(vec![1.0; 512]),
            biases: singles(vec![0.0; 16]),
            quant_mode: QuantMode::INT8,
            activation: Activation::Identity,
            cycles_estimate: 0,
            memory_bytes: 0,
        },
    ];
    let schedule = compiler.schedule(&layers, 256);
    assert_eq!(schedule.layers.len(), 2);
    assert!(schedule.pipeline_depth >= 1);
    assert!(schedule.total_cycles > 0);
}

#[test]
fn test_binary_serialization() {
    let compiler = NeuralCompiler::new(QuantMode::INT8);
    let layer = test_layer();
    let binary = compiler.compile(&[layer]);
    let bytes = binary.to_bytes();
    assert!(bytes.len() > 0);
    assert_eq!(&bytes[0..4], &[b'M', b'E', b'T', b'L']);
}

#[test]
fn test_fp16_quantization() {
    let compiler = NeuralCompiler::new(QuantMode::FP16);
    let layer = test_layer();
    let qt = compiler.quantize_layer(&layer);
    assert_eq!(qt.quant_bits, 16);
    assert_eq!(qt.quant_size_bytes, qt.original_size_bytes);
}
