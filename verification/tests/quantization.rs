use neural_compiler::bytes::checksum;
use neural_compiler::quant::{pack_biases, pack_levels, quantize_weights};
use neural_compiler::{
    Activation, Binary32, Layer, MetlBinary, MetlHeader, MetlLayer, NeuralCompiler, QuantMode,
};

struct Stream {
    state: u64,
}

impl Stream {
    fn next(&mut self) -> u64 {
        self.state = self.state.wrapping_mul(6364136223846793005).wrapping_add(1442695040888963407);
        (self.state >> 33) ^ (self.state << 31)
    }
}

fn single(value: f32) -> Binary32 {
    Binary32::from_bits(value.to_bits())
}

fn singles(values: &[f32]) -> Vec<Binary32> {
    values.iter().map(|v| single(*v)).collect()
}

fn dense(id: usize, inputs: usize, outputs: usize, weights: &[f32], biases: &[f32]) -> Layer {
    Layer {
        id,
        name: format!("layer{}", id),
        input_channels: inputs,
        output_channels: outputs,
        kernel_size: None,
        weights: singles(weights),
        biases: singles(biases),
        quant_mode: QuantMode::INT8,
        activation: Activation::Identity,
        cycles_estimate: 0,
        memory_bytes: 0,
    }
}

/// The same quantization in the machine's own arithmetic.
fn native_levels(weights: &[f32], bits: u32) -> (f32, Vec<i32>) {
    let max_abs = weights.iter().map(|w| w.abs()).fold(0.0f32, f32::max);
    let max_val = match bits {
        4 => 7.0,
        8 => 127.0,
        _ => max_abs,
    };
    let scale = if max_abs > 0.0 { max_abs / max_val } else { 1.0 };
    let levels = weights
        .iter()
        .map(|w| (w / scale).round().clamp(-max_val, max_val) as i32)
        .collect();
    (scale, levels)
}

fn native_biases(biases: &[f32], scale: f32) -> Vec<u8> {
    let mut data = vec![];
    for b in biases {
        let level = (b / scale).round().clamp(-32768.0, 32767.0) as i16;
        data.extend_from_slice(&level.to_le_bytes());
    }
    data
}

fn assert_agrees(weights: &[f32], biases: &[f32]) {
    for bits in [4u32, 8, 16] {
        let (scale, levels) = native_levels(weights, bits);
        let (found_scale, found_levels) = quantize_weights(&singles(weights), bits);
        if scale.is_nan() {
            assert!(f32::from_bits(found_scale.bits).is_nan());
        } else {
            assert_eq!(found_scale.bits, scale.to_bits(), "{:?} {}", weights, bits);
        }
        assert_eq!(found_levels, levels, "{:?} {}", weights, bits);
        assert_eq!(pack_biases(&singles(biases), found_scale), native_biases(biases, scale));
    }
}

#[test]
fn levels_agree_with_machine_arithmetic() {
    let mut stream = Stream { state: 3 };
    for round in 0..2_000u64 {
        let spread = 1.0f32 + (round % 50) as f32;
        let weights: Vec<f32> = (0..(round % 17))
            .map(|_| ((stream.next() % 20_001) as f32 / 10_000.0 - 1.0) * spread)
            .collect();
        let biases: Vec<f32> =
            (0..5).map(|_| (stream.next() % 2_001) as f32 / 1_000.0 - 1.0).collect();
        assert_agrees(&weights, &biases);
    }
}

#[test]
fn levels_agree_on_arbitrary_patterns() {
    let mut stream = Stream { state: 5 };
    for _ in 0..5_000 {
        let weights: Vec<f32> = (0..6).map(|_| f32::from_bits(stream.next() as u32)).collect();
        let biases: Vec<f32> = (0..3).map(|_| f32::from_bits(stream.next() as u32)).collect();
        assert_agrees(&weights, &biases);
    }
}

#[test]
fn levels_of_unusual_weights() {
    assert_agrees(&[], &[1.0]);
    assert_agrees(&[0.0, -0.0], &[2.5, -2.5]);
    assert_agrees(&[f32::NAN], &[1.0]);
    assert_agrees(&[f32::NAN, 3.0], &[f32::NAN]);
    assert_agrees(&[f32::INFINITY, 1.0], &[1.0, f32::INFINITY]);
    assert_agrees(&[f32::from_bits(1), -f32::from_bits(1)], &[0.0, 1.0, -1.0]);
    assert_agrees(&[f32::MAX, f32::MIN, 1.0], &[f32::MAX]);
    assert_agrees(&[2.7, -2.7, 2.2], &[40_000.0, -40_000.0]);
    assert_agrees(&[3.0e9, -3.0e9, 70_000.0], &[1.0]);
}

#[test]
fn peak_weight_takes_top_level() {
    let (_, levels) = quantize_weights(&singles(&[0.25, -1.5, 0.75]), 8);
    assert_eq!(levels, vec![21, -127, 64]);
    let (_, levels) = quantize_weights(&singles(&[0.25, -1.5, 0.75]), 4);
    assert_eq!(levels, vec![1, -7, 4]);
}

#[test]
fn opposite_weights_take_opposite_levels() {
    let (_, levels) = quantize_weights(&singles(&[0.3, -0.3, 1.0, -1.0]), 8);
    assert_eq!(levels, vec![38, -38, 127, -127]);
}

#[test]
fn levels_stand_for_weights() {
    let mut stream = Stream { state: 23 };
    for bits in [4u32, 8] {
        let weights: Vec<f32> =
            (0..500).map(|_| (stream.next() % 20_001) as f32 / 10_000.0 - 1.0).collect();
        let (scale, levels) = quantize_weights(&singles(&weights), bits);
        let scale = f32::from_bits(scale.bits) as f64;
        for (weight, level) in weights.iter().zip(levels) {
            let error = (level as f64 * scale - *weight as f64).abs();
            assert!(error <= scale * 0.500004, "{} {}", weight, level);
        }
    }
}

#[test]
fn sixteen_bit_levels_are_rounded_weights() {
    let (scale, levels) = quantize_weights(&singles(&[2.5, -2.5, 100.4, 2.49]), 16);
    assert_eq!(scale.bits, 1.0f32.to_bits());
    assert_eq!(levels, vec![3, -3, 100, 2]);
    let (_, levels) = quantize_weights(&singles(&[2.7, -2.7]), 16);
    assert_eq!(levels, vec![2, -2]);
}

#[test]
fn packing_of_each_width() {
    assert_eq!(pack_levels(&[1, -1, 7], 4), vec![0xF1, 0x07]);
    assert_eq!(pack_levels(&[-7, 7], 4), vec![0x79]);
    assert_eq!(pack_levels(&[1, -1, -127], 8), vec![0x01, 0xFF, 0x81]);
    assert_eq!(pack_levels(&[258, -2], 16), vec![0x02, 0x01, 0xFE, 0xFF]);
    assert_eq!(pack_levels(&[i32::MIN, i32::MAX], 16), vec![0, 0, 0xFF, 0xFF]);
    assert_eq!(pack_levels(&[], 4), Vec::<u8>::new());
}

#[test]
fn unpacked_nibbles_give_back_levels() {
    let (_, levels) = quantize_weights(&singles(&[0.1, -0.9, 0.5, -0.2, 0.7]), 4);
    let data = pack_levels(&levels, 4);
    for (i, level) in levels.iter().enumerate() {
        let byte = data[i / 2];
        let field = if i % 2 == 0 { byte % 16 } else { byte / 16 } as i32;
        let signed = if field >= 8 { field - 16 } else { field };
        assert_eq!(signed, *level);
    }
}

#[test]
fn tensor_fields() {
    let layer = dense(3, 2, 2, &[1.0, -0.5, 0.25, 0.0, 0.5], &[]);
    let tensor = NeuralCompiler::new(QuantMode::INT4).quantize_layer(&layer);
    assert_eq!(tensor.name, "layer3");
    assert_eq!(tensor.original_bits, 32);
    assert_eq!(tensor.quant_bits, 4);
    assert_eq!(tensor.original_size_bytes, 20);
    assert_eq!(tensor.quant_size_bytes, 3);
    assert_eq!(tensor.compression_ratio.bits, (20.0f64 / 3.0).to_bits());
    assert_eq!(tensor.scale.bits, (1.0f32 / 7.0).to_bits());
    assert_eq!(tensor.zero_point, 0);
    assert_eq!(tensor.data, vec![0xD7, 0x02, 0x03]);
}

#[test]
fn sixteen_bit_tensor_counts_at_full_size() {
    let layer = dense(0, 2, 2, &[1.0, 2.0], &[]);
    let tensor = NeuralCompiler::new(QuantMode::FP16).quantize_layer(&layer);
    assert_eq!(tensor.quant_size_bytes, 8);
    assert_eq!(tensor.data, vec![1, 0, 2, 0]);
    assert_eq!(tensor.compression_ratio.bits, 1.0f64.to_bits());
}

#[test]
fn empty_tensor() {
    let layer = dense(0, 0, 0, &[], &[]);
    let tensor = NeuralCompiler::new(QuantMode::INT8).quantize_layer(&layer);
    assert_eq!(tensor.data.len(), 0);
    assert_eq!(tensor.scale.bits, 1.0f32.to_bits());
    assert_eq!(tensor.compression_ratio.bits, 0.0f64.to_bits());
}

#[test]
fn mixed_mode_boundary() {
    let compiler = NeuralCompiler::new(QuantMode::Mixed);
    let at = dense(0, 32, 32, &[1.0], &[]);
    let above = dense(0, 41, 25, &[1.0], &[]);
    assert_eq!(compiler.quantize_layer(&at).quant_bits, 8);
    assert_eq!(compiler.quantize_layer(&above).quant_bits, 4);
}

#[test]
fn weight_and_parameter_counts() {
    let mut layer = dense(0, 3, 5, &[], &[]);
    assert_eq!(layer.weight_count(), 15);
    assert_eq!(layer.total_params(), 20);
    layer.kernel_size = Some((3, 2));
    assert_eq!(layer.weight_count(), 90);
    assert_eq!(layer.total_params(), 95);
}

#[test]
fn header_bytes() {
    let header = MetlHeader {
        magic: [1, 2, 3, 4],
        version: 0x0605,
        num_layers: 0x0807,
        input_size: 0x0C0B0A09,
        output_size: 0x100F0E0D,
        quant_mode: 17,
        checksum: 0x15141312,
    };
    assert_eq!(
        header.to_bytes(),
        vec![1, 2, 3, 4, 5, 6, 7, 8, 9, 10, 11, 12, 13, 14, 15, 16, 17, 0, 0, 0, 18, 19, 20, 21]
    );
    let fresh = MetlHeader::new();
    assert_eq!(fresh.version, 1);
    assert_eq!(fresh.quant_mode, 1);
    assert_eq!(fresh.checksum, 0);
}

#[test]
fn record_bytes() {
    let record = MetlLayer {
        layer_id: 0x0201,
        op_code: 3,
        input_dim: 0x07060504,
        output_dim: 0x0B0A0908,
        weight_offset: 0x0F0E0D0C,
        weight_size: 0x13121110,
        bias_offset: 0x17161514,
        activation: 0x18,
        cycles: 99,
    };
    assert_eq!(record.to_bytes(), (1..25).collect::<Vec<u8>>());
}

#[test]
fn mode_and_activation_codes() {
    assert_eq!(QuantMode::INT4.code(), 0);
    assert_eq!(QuantMode::INT8.code(), 1);
    assert_eq!(QuantMode::FP16.code(), 2);
    assert_eq!(QuantMode::Mixed.code(), 3);
    assert_eq!(Activation::Identity.code(), 0);
    assert_eq!(Activation::Relu.code(), 1);
    assert_eq!(Activation::Gelu.code(), 2);
    assert_eq!(Activation::Sigmoid.code(), 3);
    assert_eq!(Activation::Tanh.code(), 4);
}

#[test]
fn checksum_is_the_sum_modulo_32_bits() {
    assert_eq!(checksum(&[1, 2, 255]), 258);
    assert_eq!(checksum(&[]), 0);
    assert_eq!(checksum(&vec![255; 16_843_010]), 254);
}

fn two_layers() -> Vec<Layer> {
    let mut first = dense(65_537, 2, 3, &[1.0, -1.0, 0.5], &[0.5, -0.25]);
    first.kernel_size = Some((2, 2));
    first.activation = Activation::Tanh;
    vec![first, dense(7, 3, 1, &[0.0, 2.0, -2.0, 1.0], &[1.0])]
}

#[test]
fn compiled_parts() {
    let binary = NeuralCompiler::new(QuantMode::INT8).compile(&two_layers());
    assert_eq!(binary.header.num_layers, 2);
    assert_eq!(binary.header.input_size, 2);
    assert_eq!(binary.header.output_size, 1);
    assert_eq!(binary.header.quant_mode, 1);
    assert_eq!(binary.weight_data, vec![127, 129, 64, 0, 127, 129, 64]);
    assert_eq!(binary.bias_data, vec![64, 0, 224, 255, 64, 0]);
    let first = &binary.layers[0];
    let second = &binary.layers[1];
    assert_eq!(first.layer_id, 1);
    assert_eq!(first.op_code, 1);
    assert_eq!(first.activation, 4);
    assert_eq!(first.cycles, 36);
    assert_eq!((first.weight_offset, first.weight_size, first.bias_offset), (0, 3, 0));
    assert_eq!(second.layer_id, 7);
    assert_eq!(second.op_code, 0);
    assert_eq!(second.activation, 0);
    assert_eq!(second.cycles, 4);
    assert_eq!((second.weight_offset, second.weight_size, second.bias_offset), (3, 4, 4));
    assert_eq!(binary.total_cycles, 40);
}

#[test]
fn compiled_size_and_checksum() {
    let binary = NeuralCompiler::new(QuantMode::INT8).compile(&two_layers());
    let data = binary.to_bytes();
    assert_eq!(binary.total_size, 24 + 2 * 24 + 7 + 6);
    assert_eq!(data.len(), binary.total_size);
    let mut blank = data.clone();
    for byte in &mut blank[20..24] {
        *byte = 0;
    }
    let sum: u32 = blank.iter().map(|b| *b as u32).sum();
    assert_eq!(binary.header.checksum, sum);
    assert_eq!(&data[20..24], &sum.to_le_bytes());
    assert_eq!(&data[24..48], binary.layers[0].to_bytes().as_slice());
    assert_eq!(&data[48..72], binary.layers[1].to_bytes().as_slice());
    assert_eq!(&data[72..79], binary.weight_data.as_slice());
    assert_eq!(&data[79..], binary.bias_data.as_slice());
}

#[test]
fn compiled_nothing() {
    let binary = NeuralCompiler::new(QuantMode::Mixed).compile(&[]);
    assert_eq!(binary.header.num_layers, 0);
    assert_eq!(binary.header.input_size, 0);
    assert_eq!(binary.header.output_size, 0);
    assert_eq!(binary.header.quant_mode, 3);
    assert_eq!(binary.total_size, 24);
    assert_eq!(binary.total_cycles, 0);
    assert_eq!(binary.header.checksum, 77 + 69 + 84 + 76 + 1 + 3);
    assert_eq!(binary.compression_ratio().bits, 0.0f64.to_bits());
}

#[test]
fn compiled_cycles_saturate() {
    let layer = dense(0, 1 << 20, 1 << 20, &[], &[]);
    let binary = NeuralCompiler::new(QuantMode::INT4).compile(&[layer]);
    assert_eq!(binary.layers[0].cycles, u32::MAX);
    assert_eq!(binary.total_cycles, u32::MAX as u64);
}

#[test]
fn binary_compression_ratio() {
    let record = MetlLayer {
        layer_id: 0,
        op_code: 0,
        input_dim: 3,
        output_dim: 5,
        weight_offset: 0,
        weight_size: 0,
        bias_offset: 0,
        activation: 0,
        cycles: 0,
    };
    let binary = MetlBinary {
        header: MetlHeader::new(),
        layers: vec![record.clone(), record],
        weight_data: vec![0; 4],
        bias_data: vec![0; 3],
        total_cycles: 0,
        total_size: 0,
    };
    assert_eq!(binary.compression_ratio().bits, (160.0f64 / 7.0).to_bits());
}
