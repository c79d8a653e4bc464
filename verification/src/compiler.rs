//! The neural compiler: quantizes layers and assembles METL binaries.

use crate::bytes;
use crate::float;
use crate::float::Binary64;
use crate::layer;
use crate::layer::{Layer, QuantMode};
use crate::metl;
use crate::metl::{MetlBinary, MetlHeader, MetlLayer};
use crate::quant;
use crate::quant::QuantTensor;
use crate::rounding;
use vstd::prelude::*;

verus! {

/// The number of bits that a mode gives each weight of a layer. The mixed mode
/// takes four bits for layers of more than 1024 weights and eight for others.
pub open spec fn weight_bits(mode: QuantMode, layer: Layer) -> u32 {
    match mode {
        QuantMode::INT4 => 4,
        QuantMode::INT8 => 8,
        QuantMode::FP16 => 16,
        QuantMode::Mixed => if layer.weight_total() > 1024 {
            4
        } else {
            8
        },
    }
}

/// The packed weights of a layer.
pub open spec fn packed_weights(mode: QuantMode, layer: Layer) -> Seq<u8> {
    quant::packed(
        quant::levels_of(layer.weights@, weight_bits(mode, layer)),
        weight_bits(mode, layer),
    )
}

/// The packed biases of a layer.
pub open spec fn packed_biases(mode: QuantMode, layer: Layer) -> Seq<u8> {
    quant::packed(
        quant::bias_levels(
            layer.biases@,
            quant::scale_of(layer.weights@, weight_bits(mode, layer)),
        ),
        16,
    )
}

/// The number of bytes that the packed weights of a layer take.
pub open spec fn packed_size(mode: QuantMode, layer: Layer) -> nat {
    let count = layer.weights@.len();
    if weight_bits(mode, layer) == 4 {
        (count + 1) / 2
    } else if weight_bits(mode, layer) == 8 {
        count
    } else {
        2 * count
    }
}

/// The size that a quantized tensor is reported with: that of its packed data,
/// except that 16-bit tensors count at their full-precision size.
pub open spec fn reported_size(mode: QuantMode, layer: Layer) -> nat {
    if weight_bits(mode, layer) == 16 {
        4 * layer.weights@.len()
    } else {
        packed_size(mode, layer)
    }
}

/// Whether the sizes that quantizing a layer computes stay within machine integers.
pub open spec fn quantizable(mode: QuantMode, layer: Layer) -> bool {
    &&& 4 * layer.weights@.len() <= usize::MAX
    &&& mode == QuantMode::Mixed ==> layer.weights_countable()
}

/// The estimate of the cycles that a compiled layer takes: one and a half for each
/// weight, at most what 32 bits hold.
pub open spec fn cycle_estimate(layer: Layer) -> nat {
    if rounding::three_halves(layer.weight_total()) < u32::MAX {
        rounding::three_halves(layer.weight_total())
    } else {
        u32::MAX as nat
    }
}

/// The packed weights of some layers, one after another.
pub open spec fn weight_stream(mode: QuantMode, layers: Seq<Layer>) -> Seq<u8>
    decreases layers.len(),
{
    if layers.len() == 0 {
        Seq::empty()
    } else {
        weight_stream(mode, layers.drop_last()) + packed_weights(mode, layers.last())
    }
}

/// The packed biases of some layers, one after another.
pub open spec fn bias_stream(mode: QuantMode, layers: Seq<Layer>) -> Seq<u8>
    decreases layers.len(),
{
    if layers.len() == 0 {
        Seq::empty()
    } else {
        bias_stream(mode, layers.drop_last()) + packed_biases(mode, layers.last())
    }
}

/// The size of a layer's packed weights, as a record holds it.
pub open spec fn recorded_weight_size(mode: QuantMode, layer: Layer) -> nat {
    packed_size(mode, layer) % 0x1_0000_0000
}

/// The size of a layer's packed biases, in 32 bits.
pub open spec fn recorded_bias_size(layer: Layer) -> nat {
    (2 * layer.biases@.len()) % 0x1_0000_0000
}

/// The weight offset that follows some layers: the sum of their recorded sizes.
pub open spec fn weight_offset(mode: QuantMode, layers: Seq<Layer>) -> nat
    decreases layers.len(),
{
    if layers.len() == 0 {
        0
    } else {
        weight_offset(mode, layers.drop_last()) + recorded_weight_size(mode, layers.last())
    }
}

/// The bias offset that follows some layers: the sum of their recorded sizes.
pub open spec fn bias_offset(layers: Seq<Layer>) -> nat
    decreases layers.len(),
{
    if layers.len() == 0 {
        0
    } else {
        bias_offset(layers.drop_last()) + recorded_bias_size(layers.last())
    }
}

/// The sum of the cycle estimates of some layers.
pub open spec fn cycles_total(layers: Seq<Layer>) -> nat
    decreases layers.len(),
{
    if layers.len() == 0 {
        0
    } else {
        cycles_total(layers.drop_last()) + cycle_estimate(layers.last())
    }
}

/// The record of a layer that follows the layers `before`.
pub open spec fn record_of(mode: QuantMode, before: Seq<Layer>, layer: Layer) -> MetlLayer {
    MetlLayer {
        layer_id: (layer.id % 0x1_0000) as u16,
        op_code: if layer.kernel_size is Some {
            1
        } else {
            0
        },
        input_dim: (layer.input_channels as nat % 0x1_0000_0000) as u32,
        output_dim: (layer.output_channels as nat % 0x1_0000_0000) as u32,
        weight_offset: weight_offset(mode, before) as u32,
        weight_size: recorded_weight_size(mode, layer) as u32,
        bias_offset: bias_offset(before) as u32,
        activation: layer.activation.code_number(),
        cycles: cycle_estimate(layer) as u32,
    }
}

/// The records of some layers, in order.
pub open spec fn records_of(mode: QuantMode, layers: Seq<Layer>) -> Seq<MetlLayer> {
    Seq::new(layers.len(), |i: int| record_of(mode, layers.take(i), layers[i]))
}

/// Whether the sizes, offsets and cycle counts of a compilation stay within the
/// integers that hold them.
pub open spec fn compilable(mode: QuantMode, layers: Seq<Layer>) -> bool {
    &&& forall|i: int|
        0 <= i < layers.len() ==> {
            &&& quantizable(mode, #[trigger] layers[i])
            &&& layers[i].weights_countable()
            &&& 2 * layers[i].biases@.len() <= usize::MAX
        }
    &&& weight_offset(mode, layers) <= u32::MAX
    &&& bias_offset(layers) <= u32::MAX
    &&& cycles_total(layers) <= u64::MAX
}

/// The offsets and cycles after some of the layers stay below those after all.
proof fn lemma_totals_grow(mode: QuantMode, layers: Seq<Layer>, n: int)
    requires
        0 <= n <= layers.len(),
    ensures
        weight_offset(mode, layers.take(n)) <= weight_offset(mode, layers),
        bias_offset(layers.take(n)) <= bias_offset(layers),
        cycles_total(layers.take(n)) <= cycles_total(layers),
    decreases layers.len() - n,
{
    if n == layers.len() {
        assert(layers.take(n) =~= layers);
    } else {
        lemma_totals_grow(mode, layers, n + 1);
        assert(layers.take(n + 1).drop_last() =~= layers.take(n));
    }
}

/// The cycle estimate of a layer: half again as many as it has weights, cut off at
/// what 32 bits hold.
proof fn lemma_cycle_estimate(layer: Layer)
    ensures
        cycle_estimate(layer) == vstd::math::min(
            3 * layer.weight_total() as int / 2,
            0xFFFF_FFFF,
        ),
{
    let count = layer.weight_total();
    rounding::law_three_halves(count);
    if 3 * count >= 0x20_0000_0000_0000 {
        rounding::law_three_halves(0x1_0000_0000);
        rounding::law_three_halves_keeps_order(0x1_0000_0000, count);
    }
}

/// What the records of some layers hold, by the fields of the layers: the number of
/// the layer, whether it is a convolution, its channels, the size of its packed
/// weights, its activation and its cycles. The first record has offsets zero; each
/// further one starts where the data of the one before it end.
#[verifier::rlimit(40)]
pub proof fn law_records_by_fields(mode: QuantMode, layers: Seq<Layer>)
    requires
        compilable(mode, layers),
    ensures
        forall|i: int|
            0 <= i < layers.len() ==> {
                let record = #[trigger] records_of(mode, layers)[i];
                let layer = layers[i];
                &&& record.layer_id == layer.id % 0x1_0000
                &&& record.op_code == 1 <==> layer.kernel_size is Some
                &&& record.op_code == 0 <==> layer.kernel_size is None
                &&& record.input_dim == layer.input_channels as int % 0x1_0000_0000
                &&& record.output_dim == layer.output_channels as int % 0x1_0000_0000
                &&& record.weight_size == packed_weights(mode, layer).len() % 0x1_0000_0000
                &&& record.activation == layer.activation.code_number()
                &&& record.cycles == vstd::math::min(
                    3 * layer.weight_total() as int / 2,
                    0xFFFF_FFFF,
                )
            },
        layers.len() > 0 ==> {
            &&& records_of(mode, layers).first().weight_offset == 0
            &&& records_of(mode, layers).first().bias_offset == 0
        },
        forall|i: int, j: int|
            #![trigger records_of(mode, layers)[i], records_of(mode, layers)[j]]
            0 <= i && j == i + 1 && j < layers.len() ==> {
                &&& records_of(mode, layers)[j].weight_offset == records_of(
                    mode,
                    layers,
                )[i].weight_offset + records_of(mode, layers)[i].weight_size
                &&& records_of(mode, layers)[j].bias_offset == records_of(
                    mode,
                    layers,
                )[i].bias_offset + (2 * layers[i].biases@.len()) % 0x1_0000_0000
            },
{
    assert forall|i: int| 0 <= i < layers.len() implies {
        let record = #[trigger] records_of(mode, layers)[i];
        let layer = layers[i];
        &&& record.layer_id == layer.id % 0x1_0000
        &&& record.op_code == 1 <==> layer.kernel_size is Some
        &&& record.op_code == 0 <==> layer.kernel_size is None
        &&& record.input_dim == layer.input_channels as int % 0x1_0000_0000
        &&& record.output_dim == layer.output_channels as int % 0x1_0000_0000
        &&& record.weight_size == packed_weights(mode, layer).len() % 0x1_0000_0000
        &&& record.activation == layer.activation.code_number()
        &&& record.cycles == vstd::math::min(3 * layer.weight_total() as int / 2, 0xFFFF_FFFF)
    } by {
        lemma_cycle_estimate(layers[i]);
        law_packed_sizes(mode, layers[i]);
    }
    if layers.len() > 0 {
        law_offsets_chain(mode, layers, 0);
    }
    assert forall|i: int, j: int|
        #![trigger records_of(mode, layers)[i], records_of(mode, layers)[j]]
        0 <= i && j == i + 1 && j < layers.len() implies {
        &&& records_of(mode, layers)[j].weight_offset == records_of(
            mode,
            layers,
        )[i].weight_offset + records_of(mode, layers)[i].weight_size
        &&& records_of(mode, layers)[j].bias_offset == records_of(mode, layers)[i].bias_offset + (2
            * layers[i].biases@.len()) % 0x1_0000_0000
    } by {
        law_offsets_chain(mode, layers, j);
    }
}

/// The cycles of the records of some layers, summed up from the first on.
proof fn lemma_cycles_fold(mode: QuantMode, layers: Seq<Layer>)
    ensures
        cycles_total(layers) == records_of(mode, layers).fold_left(
            0int,
            |sum: int, record: MetlLayer| sum + record.cycles,
        ),
    decreases layers.len(),
{
    if layers.len() > 0 {
        let fewer = layers.drop_last();
        lemma_cycles_fold(mode, fewer);
        assert(records_of(mode, layers).drop_last() =~= records_of(mode, fewer)) by {
            assert forall|i: int| 0 <= i < fewer.len() implies records_of(mode, layers)[i]
                == records_of(mode, fewer)[i] by {
                assert(fewer.take(i) =~= layers.take(i));
            }
        }
    }
}

/// The neural compiler
pub struct NeuralCompiler {
    quant_mode: QuantMode,
}

impl NeuralCompiler {
    /// The mode that the compiler quantizes with.
    pub closed spec fn mode(&self) -> QuantMode {
        self.quant_mode
    }

    /// A compiler that quantizes with the given mode.
    pub fn new(mode: QuantMode) -> (result: Self)
        ensures
            result.mode() == mode,
    {
        NeuralCompiler { quant_mode: mode }
    }

    /// Quantize a layer's weights
    pub fn quantize_layer(&self, layer: &Layer) -> (result: QuantTensor)
        requires
            quantizable(self.mode(), *layer),
        ensures
            result.name@ == layer.name@,
            result.original_bits == 32,
            result.quant_bits == weight_bits(self.mode(), *layer),
            result.original_size_bytes == 4 * layer.weights@.len(),
            result.quant_size_bytes == reported_size(self.mode(), *layer),
            result.compression_ratio@ == float::count_ratio(
                4 * layer.weights@.len(),
                vstd::math::max(reported_size(self.mode(), *layer) as int, 1) as nat,
            ),
            result.scale@ == quant::scale_of(layer.weights@, weight_bits(self.mode(), *layer)),
            result.zero_point == 0,
            result.data@ == packed_weights(self.mode(), *layer),
            result.data@.len() == packed_size(self.mode(), *layer),
            self.mode() == QuantMode::INT4 ==> result.quant_bits == 4,
            self.mode() == QuantMode::INT8 ==> result.quant_bits == 8,
            self.mode() == QuantMode::FP16 ==> result.quant_bits == 16,
            self.mode() == QuantMode::Mixed && layer.kernel_size is None ==> result.quant_bits
                == if layer.input_channels * layer.output_channels > 1024 {
                4int
            } else {
                8
            },
            self.mode() == QuantMode::Mixed ==> (layer.kernel_size matches Some((height, width))
                ==> result.quant_bits == if layer.input_channels * layer.output_channels * (height
                * width) > 1024 {
                4int
            } else {
                8
            }),
            result.quant_bits == 4 ==> result.data@.len() == (layer.weights@.len() + 1) / 2,
            result.quant_bits == 8 ==> result.data@.len() == layer.weights@.len(),
            result.quant_bits == 16 ==> result.data@.len() == 2 * layer.weights@.len(),
            result.quant_bits != 16 ==> result.quant_size_bytes == result.data@.len(),
            result.quant_bits == 16 ==> result.quant_size_bytes == result.original_size_bytes,
            result.compression_ratio@ == float::count_ratio(
                result.original_size_bytes as nat,
                vstd::math::max(result.quant_size_bytes as int, 1) as nat,
            ),
            result.scale@ == quant::scale_of(layer.weights@, result.quant_bits),
            result.data@ == quant::packed(
                quant::levels_of(layer.weights@, result.quant_bits),
                result.quant_bits,
            ),
    {
        let bits: u32 = match self.quant_mode {
            QuantMode::INT4 => 4,
            QuantMode::INT8 => 8,
            QuantMode::FP16 => 16,
            QuantMode::Mixed => if layer.weight_count() > 1024 {
                4
            } else {
                8
            },
        };
        let original_size: usize = layer.weights.len() * 4;
        let (scale, levels) = quant::quantize_weights(layer.weights.as_slice(), bits);
        let data: Vec<u8> = quant::pack_levels(levels.as_slice(), bits);
        let size: usize = if bits == 16 {
            original_size
        } else {
            data.len()
        };
        let divisor: usize = if size > 1 {
            size
        } else {
            1
        };
        QuantTensor {
            name: layer.name.clone(),
            original_bits: 32,
            quant_bits: bits,
            original_size_bytes: original_size,
            quant_size_bytes: size,
            compression_ratio: Binary64::ratio(original_size as u64, divisor as u64),
            scale,
            zero_point: 0,
            data,
        }
    }

    /// Compile a model into METL binary
    #[verifier::rlimit(60)]
    pub fn compile(&self, layers: &[Layer]) -> (result: MetlBinary)
        requires
            compilable(self.mode(), layers@),
        ensures
            result.header.magic@ == seq![0x4Du8, 0x45, 0x54, 0x4C],
            result.header.version == 1,
            result.header.num_layers == layers@.len() % 0x1_0000,
            result.header.input_size == if layers@.len() > 0 {
                layers@.first().input_channels as int % 0x1_0000_0000
            } else {
                0
            },
            result.header.output_size == if layers@.len() > 0 {
                layers@.last().output_channels as int % 0x1_0000_0000
            } else {
                0
            },
            result.header.quant_mode == self.mode().code_number(),
            result.header.checksum == bytes::byte_sum(
                metl::encoded_parts(
                    (MetlHeader { checksum: 0, ..result.header }),
                    result.layers@,
                    result.weight_data@,
                    result.bias_data@,
                ),
            ) % 0x1_0000_0000,
            result.layers@ == records_of(self.mode(), layers@),
            result.weight_data@ == weight_stream(self.mode(), layers@),
            result.bias_data@ == bias_stream(self.mode(), layers@),
            result.total_cycles == cycles_total(layers@),
            result.total_size == result.encoded().len(),
            result.header.quant_mode == 0 <==> self.mode() == QuantMode::INT4,
            result.header.quant_mode == 1 <==> self.mode() == QuantMode::INT8,
            result.header.quant_mode == 2 <==> self.mode() == QuantMode::FP16,
            result.header.quant_mode == 3 <==> self.mode() == QuantMode::Mixed,
            result.layers@.len() == layers@.len(),
            forall|i: int|
                0 <= i < layers@.len() ==> {
                    let record = #[trigger] result.layers@[i];
                    let layer = layers@[i];
                    &&& record.layer_id == layer.id % 0x1_0000
                    &&& record.op_code == 1 <==> layer.kernel_size is Some
                    &&& record.op_code == 0 <==> layer.kernel_size is None
                    &&& record.input_dim == layer.input_channels as int % 0x1_0000_0000
                    &&& record.output_dim == layer.output_channels as int % 0x1_0000_0000
                    &&& record.weight_size == packed_weights(self.mode(), layer).len()
                        % 0x1_0000_0000
                    &&& record.activation == layer.activation.code_number()
                    &&& record.cycles == vstd::math::min(
                        3 * layer.weight_total() as int / 2,
                        0xFFFF_FFFF,
                    )
                },
            layers@.len() > 0 ==> {
                &&& result.header.input_size == result.layers@.first().input_dim
                &&& result.header.output_size == result.layers@.last().output_dim
                &&& result.layers@.first().weight_offset == 0
                &&& result.layers@.first().bias_offset == 0
            },
            forall|i: int, j: int|
                #![trigger result.layers@[i], result.layers@[j]]
                0 <= i && j == i + 1 && j < layers@.len() ==> {
                    &&& result.layers@[j].weight_offset == result.layers@[i].weight_offset
                        + result.layers@[i].weight_size
                    &&& result.layers@[j].bias_offset == result.layers@[i].bias_offset + (2
                        * layers@[i].biases@.len()) % 0x1_0000_0000
                },
            result.total_cycles == result.layers@.fold_left(
                0int,
                |sum: int, record: MetlLayer| sum + record.cycles,
            ),
            result.total_size == 24 + 24 * layers@.len() + result.weight_data@.len()
                + result.bias_data@.len(),
    {
        let ghost mode = self.mode();
        let mut header: MetlHeader = MetlHeader::new();
        header.num_layers = (layers.len() % 0x1_0000) as u16;
        if layers.len() > 0 {
            header.input_size = (layers[0].input_channels as u64 % 0x1_0000_0000) as u32;
            header.output_size =
            (layers[layers.len() - 1].output_channels as u64 % 0x1_0000_0000) as u32;
        }
        header.quant_mode = self.quant_mode.code();
        let mut records: Vec<MetlLayer> = Vec::new();
        let mut weight_data: Vec<u8> = Vec::new();
        let mut bias_data: Vec<u8> = Vec::new();
        let mut weight_at: u32 = 0;
        let mut bias_at: u32 = 0;
        let mut total_cycles: u64 = 0;
        let mut i: usize = 0;
        while i < layers.len()
            invariant
                mode == self.mode(),
                compilable(mode, layers@),
                i <= layers@.len(),
                records@ == records_of(mode, layers@).take(i as int),
                weight_data@ == weight_stream(mode, layers@.take(i as int)),
                bias_data@ == bias_stream(mode, layers@.take(i as int)),
                weight_at == weight_offset(mode, layers@.take(i as int)),
                bias_at == bias_offset(layers@.take(i as int)),
                total_cycles == cycles_total(layers@.take(i as int)),
            decreases layers@.len() - i,
        {
            let layer: &Layer = &layers[i];
            proof {
                assert(quantizable(mode, layers@[i as int]));
                assert(layers@.take(i + 1).drop_last() =~= layers@.take(i as int));
                assert(layers@.take(i + 1).last() == *layer);
                lemma_totals_grow(mode, layers@, i + 1);
            }
            let tensor: QuantTensor = self.quantize_layer(layer);
            let weight_size: u32 = (tensor.data.len() as u64 % 0x1_0000_0000) as u32;
            let bias_size: u32 = ((layer.biases.len() * 2) as u64 % 0x1_0000_0000) as u32;
            let estimate: u128 = rounding::half_again(layer.weight_count() as u64);
            let cycles: u32 = if estimate < u32::MAX as u128 {
                estimate as u32
            } else {
                u32::MAX
            };
            records.push(
                MetlLayer {
                    layer_id: (layer.id % 0x1_0000) as u16,
                    op_code: match layer.kernel_size {
                        Some(_) => 1,
                        None => 0,
                    },
                    input_dim: (layer.input_channels as u64 % 0x1_0000_0000) as u32,
                    output_dim: (layer.output_channels as u64 % 0x1_0000_0000) as u32,
                    weight_offset: weight_at,
                    weight_size,
                    bias_offset: bias_at,
                    activation: layer.activation.code(),
                    cycles,
                },
            );
            bytes::append(&mut weight_data, tensor.data.as_slice());
            let biases: Vec<u8> = quant::pack_biases(layer.biases.as_slice(), tensor.scale);
            bytes::append(&mut bias_data, biases.as_slice());
            weight_at = weight_at + weight_size;
            bias_at = bias_at + bias_size;
            total_cycles = total_cycles + cycles as u64;
            assert(records@ =~= records_of(mode, layers@).take(i + 1));
            i = i + 1;
        }
        proof {
            assert(layers@.take(layers@.len() as int) =~= layers@);
            assert(records_of(mode, layers@).take(layers@.len() as int) =~= records_of(
                mode,
                layers@,
            ));
        }
        let unsealed: Vec<u8> = metl::serialize_parts(
            &header,
            records.as_slice(),
            weight_data.as_slice(),
            bias_data.as_slice(),
        );
        let ghost blank = header;
        header.checksum = bytes::checksum(unsealed.as_slice());
        assert((MetlHeader { checksum: 0, ..header }) == blank);
        let result = MetlBinary {
            header,
            layers: records,
            weight_data,
            bias_data,
            total_cycles,
            total_size: unsealed.len(),
        };
        proof {
            law_records_by_fields(mode, layers@);
            lemma_cycles_fold(mode, layers@);
            metl::law_sections_read_back(result);
        }
        result
    }
}

/// Integer modes make the weights of a layer smaller, by a ratio of at least two;
/// the 16-bit mode reports the same size, a ratio of one.
pub proof fn law_integer_modes_compress(mode: QuantMode, layer: Layer)
    requires
        layer.weights@.len() > 0,
    ensures
        weight_bits(mode, layer) != 16 ==> {
            &&& 0 < reported_size(mode, layer) < 4 * layer.weights@.len()
            &&& float::count_ratio(
                4 * layer.weights@.len(),
                reported_size(mode, layer),
            )->Finite_units >= 2 * float::double_one()
        },
        weight_bits(mode, layer) == 16 ==> {
            &&& reported_size(mode, layer) == 4 * layer.weights@.len()
            &&& float::count_ratio(
                4 * layer.weights@.len(),
                reported_size(mode, layer),
            )->Finite_units == float::double_one()
        },
{
    float::law_count_ratio(4 * layer.weights@.len(), reported_size(mode, layer));
}

/// The packed weights of a layer take their packed size.
pub proof fn law_packed_sizes(mode: QuantMode, layer: Layer)
    ensures
        packed_weights(mode, layer).len() == packed_size(mode, layer),
        packed_biases(mode, layer).len() == 2 * layer.biases@.len(),
{
}

/// The streams of leading layers begin the streams of all layers.
proof fn lemma_streams_begin(mode: QuantMode, layers: Seq<Layer>, n: int)
    requires
        0 <= n <= layers.len(),
    ensures
        weight_stream(mode, layers.take(n)).is_prefix_of(weight_stream(mode, layers)),
        bias_stream(mode, layers.take(n)).is_prefix_of(bias_stream(mode, layers)),
    decreases layers.len() - n,
{
    if n == layers.len() {
        assert(layers.take(n) =~= layers);
    } else {
        lemma_streams_begin(mode, layers, n + 1);
        assert(layers.take(n + 1).drop_last() =~= layers.take(n));
        let weights = weight_stream(mode, layers.take(n));
        let biases = bias_stream(mode, layers.take(n));
        let more_weights = weight_stream(mode, layers.take(n + 1));
        let more_biases = bias_stream(mode, layers.take(n + 1));
        assert(more_weights.subrange(0, weights.len() as int) =~= weights);
        assert(more_biases.subrange(0, biases.len() as int) =~= biases);
        assert(weights =~= weight_stream(mode, layers).subrange(0, weights.len() as int));
        assert(biases =~= bias_stream(mode, layers).subrange(0, biases.len() as int));
    }
}

/// Offsets count the bytes of the streams where each size fits its record.
proof fn lemma_offsets_count(mode: QuantMode, layers: Seq<Layer>)
    ensures
        (forall|j: int|
            0 <= j < layers.len() ==> packed_size(mode, #[trigger] layers[j]) <= u32::MAX)
            ==> weight_stream(mode, layers).len() == weight_offset(mode, layers),
        (forall|j: int|
            0 <= j < layers.len() ==> 2 * (#[trigger] layers[j]).biases@.len() <= u32::MAX)
            ==> bias_stream(mode, layers).len() == bias_offset(layers),
    decreases layers.len(),
{
    if layers.len() > 0 {
        let fewer = layers.drop_last();
        lemma_offsets_count(mode, fewer);
        law_packed_sizes(mode, layers.last());
        assert(forall|j: int| 0 <= j < fewer.len() ==> fewer[j] == #[trigger] layers[j]);
        assert(layers[layers.len() - 1] == layers.last());
        if forall|j: int|
            0 <= j < layers.len() ==> packed_size(mode, #[trigger] layers[j]) <= u32::MAX {
            assert forall|j: int| 0 <= j < fewer.len() implies packed_size(
                mode,
                #[trigger] fewer[j],
            ) <= u32::MAX by {
                assert(fewer[j] == layers[j]);
            }
        }
        if forall|j: int|
            0 <= j < layers.len() ==> 2 * (#[trigger] layers[j]).biases@.len() <= u32::MAX {
            assert forall|j: int| 0 <= j < fewer.len() implies 2 * (
            #[trigger] fewer[j]).biases@.len() <= u32::MAX by {
                assert(fewer[j] == layers[j]);
            }
        }
    }
}

/// What a stream's beginning ends with lies in the stream.
proof fn lemma_piece_found(whole: Seq<u8>, before: Seq<u8>, piece: Seq<u8>)
    requires
        (before + piece).is_prefix_of(whole),
    ensures
        before.len() + piece.len() <= whole.len(),
        whole.subrange(before.len() as int, (before.len() + piece.len()) as int) == piece,
{
    let start = before.len() as int;
    let end = (before.len() + piece.len()) as int;
    assert((before + piece).subrange(start, end) =~= piece);
    assert(whole.subrange(start, end) =~= (before + piece).subrange(start, end));
}

/// The weights of a layer lie in the weight data from the sum of the sizes before it.
#[verifier::rlimit(40)]
proof fn lemma_weights_found(mode: QuantMode, layers: Seq<Layer>, i: int)
    requires
        0 <= i < layers.len(),
        forall|j: int| 0 <= j < i ==> packed_size(mode, #[trigger] layers[j]) <= u32::MAX,
    ensures
        ({
            let start = weight_offset(mode, layers.take(i)) as int;
            let end = start + packed_size(mode, layers[i]);
            &&& end <= weight_stream(mode, layers).len()
            &&& weight_stream(mode, layers).subrange(start, end) == packed_weights(mode, layers[i])
        }),
{
    let before = layers.take(i);
    let upto = layers.take(i + 1);
    lemma_streams_begin(mode, layers, i + 1);
    assert forall|j: int| 0 <= j < before.len() implies packed_size(mode, #[trigger] before[j])
        <= u32::MAX by {
        assert(before[j] == layers[j]);
    }
    lemma_offsets_count(mode, before);
    law_packed_sizes(mode, layers[i]);
    assert(upto.drop_last() =~= before);
    assert(upto.last() == layers[i]);
    lemma_piece_found(
        weight_stream(mode, layers),
        weight_stream(mode, before),
        packed_weights(mode, layers[i]),
    );
}

/// The weights of a layer lie in the weight data where its record says, as long as
/// the sizes up to it fit their records.
#[verifier::rlimit(40)]
pub proof fn law_weights_found_by_record(mode: QuantMode, layers: Seq<Layer>, i: int)
    requires
        compilable(mode, layers),
        0 <= i < layers.len(),
        forall|j: int| 0 <= j <= i ==> packed_size(mode, #[trigger] layers[j]) <= u32::MAX,
    ensures
        ({
            let record = records_of(mode, layers)[i];
            &&& record.weight_offset + record.weight_size <= weight_stream(mode, layers).len()
            &&& weight_stream(mode, layers).subrange(
                record.weight_offset as int,
                record.weight_offset + record.weight_size,
            ) == packed_weights(mode, layers[i])
        }),
{
    lemma_weights_found(mode, layers, i);
    lemma_totals_grow(mode, layers, i);
    assert(packed_size(mode, layers[i]) <= u32::MAX);
    let record = record_of(mode, layers.take(i), layers[i]);
    assert(records_of(mode, layers)[i] == record);
    assert(record.weight_offset == weight_offset(mode, layers.take(i)));
    assert(record.weight_size == packed_size(mode, layers[i]));
}

/// The biases of a layer lie in the bias data where its record says, two bytes
/// each, as long as the sizes before it fit in 32 bits.
#[verifier::rlimit(40)]
pub proof fn law_biases_found_by_record(mode: QuantMode, layers: Seq<Layer>, i: int)
    requires
        compilable(mode, layers),
        0 <= i < layers.len(),
        forall|j: int| 0 <= j < i ==> 2 * (#[trigger] layers[j]).biases@.len() <= u32::MAX,
    ensures
        ({
            let start = records_of(mode, layers)[i].bias_offset as int;
            let end = start + 2 * layers[i].biases@.len();
            &&& end <= bias_stream(mode, layers).len()
            &&& bias_stream(mode, layers).subrange(start, end) == packed_biases(mode, layers[i])
        }),
{
    let before = layers.take(i);
    let upto = layers.take(i + 1);
    lemma_totals_grow(mode, layers, i);
    lemma_streams_begin(mode, layers, i + 1);
    lemma_offsets_count(mode, before);
    law_packed_sizes(mode, layers[i]);
    assert(upto.drop_last() =~= before);
    assert(upto.last() == layers[i]);
    lemma_piece_found(
        bias_stream(mode, layers),
        bias_stream(mode, before),
        packed_biases(mode, layers[i]),
    );
}

/// The first record starts at offset zero, and each further one where the sizes of
/// the one before it end.
pub proof fn law_offsets_chain(mode: QuantMode, layers: Seq<Layer>, i: int)
    requires
        compilable(mode, layers),
        0 <= i < layers.len(),
    ensures
        i == 0 ==> records_of(mode, layers)[0].weight_offset == 0,
        i == 0 ==> records_of(mode, layers)[0].bias_offset == 0,
        i > 0 ==> records_of(mode, layers)[i].weight_offset == records_of(
            mode,
            layers,
        )[i - 1].weight_offset + records_of(mode, layers)[i - 1].weight_size,
        i > 0 ==> records_of(mode, layers)[i].bias_offset == records_of(
            mode,
            layers,
        )[i - 1].bias_offset + recorded_bias_size(layers[i - 1]),
{
    lemma_totals_grow(mode, layers, i);
    if i > 0 {
        lemma_totals_grow(mode, layers, i - 1);
        assert(layers.take(i).drop_last() =~= layers.take(i - 1));
    }
}

/// The sum of the cycles that some records hold.
pub open spec fn recorded_cycles(records: Seq<MetlLayer>) -> nat
    decreases records.len(),
{
    if records.len() == 0 {
        0
    } else {
        recorded_cycles(records.drop_last()) + records.last().cycles as nat
    }
}

/// The total cycles of a compilation are the sum of the cycles of its records.
pub proof fn law_total_cycles_are_recorded(mode: QuantMode, layers: Seq<Layer>)
    ensures
        recorded_cycles(records_of(mode, layers)) == cycles_total(layers),
    decreases layers.len(),
{
    if layers.len() > 0 {
        let fewer = layers.drop_last();
        law_total_cycles_are_recorded(mode, fewer);
        assert(records_of(mode, layers).drop_last() =~= records_of(mode, fewer)) by {
            assert forall|i: int| 0 <= i < fewer.len() implies records_of(mode, layers)[i]
                == records_of(mode, fewer)[i] by {
                assert(fewer.take(i) =~= layers.take(i));
            }
        }
    }
}

/// The encoding of a compiled model holds the packed weights and biases of each
/// layer where the record of the layer says, counted from the start of the weight
/// data and of the bias data. The sizes up to the layer are to fit in 32 bits.
#[verifier::rlimit(40)]
pub proof fn law_layers_found_in_binary(
    mode: QuantMode,
    layers: Seq<Layer>,
    binary: MetlBinary,
    i: int,
)
    requires
        compilable(mode, layers),
        binary.layers@ == records_of(mode, layers),
        binary.weight_data@ == weight_stream(mode, layers),
        binary.bias_data@ == bias_stream(mode, layers),
        0 <= i < layers.len(),
        forall|j: int| 0 <= j <= i ==> packed_size(mode, #[trigger] layers[j]) <= u32::MAX,
        forall|j: int| 0 <= j < i ==> 2 * (#[trigger] layers[j]).biases@.len() <= u32::MAX,
    ensures
        ({
            let record = binary.layers@[i];
            let weights = 24 + 24 * layers.len() + record.weight_offset;
            let biases = 24 + 24 * layers.len() + binary.weight_data@.len() + record.bias_offset;
            &&& binary.encoded().subrange(24 + 24 * i, 48 + 24 * i) == record.encoded()
            &&& binary.encoded().subrange(weights, weights + record.weight_size)
                == packed_weights(mode, layers[i])
            &&& binary.encoded().subrange(biases, biases + 2 * layers[i].biases@.len())
                == packed_biases(mode, layers[i])
        }),
{
    metl::law_sections_read_back(binary);
    law_weights_found_by_record(mode, layers, i);
    law_biases_found_by_record(mode, layers, i);
    let record = binary.layers@[i];
    lemma_data_pieces(
        binary.encoded(),
        (24 + 24 * layers.len()) as int,
        binary.weight_data@,
        binary.bias_data@,
        record.weight_offset as int,
        record.weight_offset + record.weight_size,
    );
    lemma_data_pieces(
        binary.encoded(),
        (24 + 24 * layers.len()) as int,
        binary.weight_data@,
        binary.bias_data@,
        record.bias_offset as int,
        record.bias_offset + 2 * layers[i].biases@.len(),
    );
}

/// Pieces of the weights and of the biases that end a sequence lie in the sequence.
proof fn lemma_data_pieces(
    all: Seq<u8>,
    start: int,
    weights: Seq<u8>,
    biases: Seq<u8>,
    from: int,
    end: int,
)
    requires
        0 <= start <= all.len(),
        all.skip(start) == weights + biases,
        0 <= from <= end,
    ensures
        end <= weights.len() ==> all.subrange(start + from, start + end) == weights.subrange(
            from,
            end,
        ),
        end <= biases.len() ==> all.subrange(
            start + weights.len() + from,
            start + weights.len() + end,
        ) == biases.subrange(from, end),
{
    let tail = all.skip(start);
    assert(tail.len() == weights.len() + biases.len());
    if end <= weights.len() {
        assert(all.subrange(start + from, start + end) =~= tail.subrange(from, end));
        assert(tail.subrange(from, end) =~= weights.subrange(from, end));
    }
    if end <= biases.len() {
        let n = weights.len();
        assert(all.subrange(start + n + from, start + n + end) =~= tail.subrange(
            n + from,
            n + end,
        ));
        assert(tail.subrange(n + from, n + end) =~= biases.subrange(from, end));
    }
}

/// The width that a mode gives the weights of a layer. Only the mixed mode looks at
/// the layer: it takes four bits where the channels, times the area of the kernel
/// where there is one, call for more than 1024 weights, and eight bits elsewhere.
pub proof fn law_width_by_mode(layer: Layer)
    ensures
        weight_bits(QuantMode::INT4, layer) == 4,
        weight_bits(QuantMode::INT8, layer) == 8,
        weight_bits(QuantMode::FP16, layer) == 16,
        layer.kernel_size is None ==> (weight_bits(QuantMode::Mixed, layer) == 4
            <==> layer.input_channels * layer.output_channels > 1024),
        layer.kernel_size is None ==> (weight_bits(QuantMode::Mixed, layer) == 8
            <==> layer.input_channels * layer.output_channels <= 1024),
        layer.kernel_size matches Some((height, width)) ==> {
            &&& weight_bits(QuantMode::Mixed, layer) == 4 <==> layer.input_channels
                * layer.output_channels * (height * width) > 1024
            &&& weight_bits(QuantMode::Mixed, layer) == 8 <==> layer.input_channels
                * layer.output_channels * (height * width) <= 1024
        },
{
    layer::law_counts_follow_dimensions(layer);
}

/// The sizes of a layer by its width: packed weights take half a byte, one byte or
/// two bytes each, and a tensor is reported with the packed size, or with four bytes
/// for each weight where the width is sixteen bits.
pub proof fn law_sizes_by_width(mode: QuantMode, layer: Layer)
    ensures
        weight_bits(mode, layer) == 4 ==> packed_size(mode, layer) == (layer.weights@.len() + 1)
            / 2,
        weight_bits(mode, layer) == 8 ==> packed_size(mode, layer) == layer.weights@.len(),
        weight_bits(mode, layer) == 16 ==> packed_size(mode, layer) == 2 * layer.weights@.len(),
        weight_bits(mode, layer) != 16 ==> reported_size(mode, layer) == packed_size(mode, layer),
        weight_bits(mode, layer) == 16 ==> reported_size(mode, layer) == 4 * layer.weights@.len(),
{
}

/// The weight data of two groups of layers follow one another; those of one layer are
/// its levels in the width that the mode gives it.
pub proof fn law_weight_data_concatenate(
    mode: QuantMode,
    a: Seq<Layer>,
    b: Seq<Layer>,
    layer: Layer,
)
    ensures
        weight_stream(mode, a + b) == weight_stream(mode, a) + weight_stream(mode, b),
        weight_stream(mode, seq![layer]) == quant::packed(
            quant::levels_of(layer.weights@, weight_bits(mode, layer)),
            weight_bits(mode, layer),
        ),
        weight_stream(mode, seq![]) == Seq::<u8>::empty(),
    decreases b.len(),
{
    let one = seq![layer];
    assert(one.drop_last() =~= Seq::<Layer>::empty());
    reveal_with_fuel(weight_stream, 2);
    assert(weight_stream(mode, one) =~= packed_weights(mode, layer));
    if b.len() == 0 {
        assert(a + b =~= a);
        assert(weight_stream(mode, a) + weight_stream(mode, b) =~= weight_stream(mode, a));
    } else {
        assert((a + b).drop_last() =~= a + b.drop_last());
        law_weight_data_concatenate(mode, a, b.drop_last(), layer);
        assert(weight_stream(mode, a + b) =~= weight_stream(mode, a) + weight_stream(mode, b));
    }
}

/// The bias data of two groups of layers follow one another; those of one layer are
/// its biases, taken by the scale of its weights, in sixteen bits each.
pub proof fn law_bias_data_concatenate(
    mode: QuantMode,
    a: Seq<Layer>,
    b: Seq<Layer>,
    layer: Layer,
)
    ensures
        bias_stream(mode, a + b) == bias_stream(mode, a) + bias_stream(mode, b),
        bias_stream(mode, seq![layer]) == quant::packed(
            quant::bias_levels(
                layer.biases@,
                quant::scale_of(layer.weights@, weight_bits(mode, layer)),
            ),
            16,
        ),
        bias_stream(mode, seq![]) == Seq::<u8>::empty(),
    decreases b.len(),
{
    let one = seq![layer];
    assert(one.drop_last() =~= Seq::<Layer>::empty());
    reveal_with_fuel(bias_stream, 2);
    assert(bias_stream(mode, one) =~= packed_biases(mode, layer));
    if b.len() == 0 {
        assert(a + b =~= a);
        assert(bias_stream(mode, a) + bias_stream(mode, b) =~= bias_stream(mode, a));
    } else {
        assert((a + b).drop_last() =~= a + b.drop_last());
        law_bias_data_concatenate(mode, a, b.drop_last(), layer);
        assert(bias_stream(mode, a + b) =~= bias_stream(mode, a) + bias_stream(mode, b));
    }
}

/// Offsets and cycles of two groups of layers add up; those of one layer are the
/// sizes of its packed data, in 32 bits, and half again as many cycles as it has
/// weights, cut off at what 32 bits hold.
pub proof fn law_totals_add(mode: QuantMode, a: Seq<Layer>, b: Seq<Layer>, layer: Layer)
    ensures
        weight_offset(mode, a + b) == weight_offset(mode, a) + weight_offset(mode, b),
        bias_offset(a + b) == bias_offset(a) + bias_offset(b),
        cycles_total(a + b) == cycles_total(a) + cycles_total(b),
        weight_offset(mode, seq![layer]) == packed_weights(mode, layer).len() % 0x1_0000_0000,
        bias_offset(seq![layer]) == (2 * layer.biases@.len()) % 0x1_0000_0000,
        cycles_total(seq![layer]) == vstd::math::min(
            3 * layer.weight_total() as int / 2,
            0xFFFF_FFFF,
        ),
        weight_offset(mode, seq![]) == 0,
        bias_offset(seq![]) == 0,
        cycles_total(seq![]) == 0,
    decreases b.len(),
{
    let one = seq![layer];
    assert(one.drop_last() =~= Seq::<Layer>::empty());
    assert(one.last() == layer);
    reveal_with_fuel(weight_offset, 2);
    reveal_with_fuel(bias_offset, 2);
    reveal_with_fuel(cycles_total, 2);
    law_packed_sizes(mode, layer);
    lemma_cycle_estimate(layer);
    if b.len() == 0 {
        assert(a + b =~= a);
    } else {
        assert((a + b).drop_last() =~= a + b.drop_last());
        law_totals_add(mode, a, b.drop_last(), layer);
    }
}

/// Every bias of a layer is packed as its quotient by the scale of the layer's
/// weights, in the width that the mode gives the weights: the very scale that
/// quantizing the layer returns. Two bytes hold it, the low byte first.
pub proof fn law_biases_packed_by_weight_scale(
    mode: QuantMode,
    layer: Layer,
    tensor: QuantTensor,
    k: int,
)
    requires
        0 <= k < layer.biases@.len(),
        tensor.quant_bits == weight_bits(mode, layer),
        tensor.scale@ == quant::scale_of(layer.weights@, tensor.quant_bits),
    ensures
        packed_biases(mode, layer).len() == 2 * layer.biases@.len(),
        quant::unpacked(packed_biases(mode, layer), 16, k) == quant::bias_level(
            layer.biases@[k]@,
            tensor.scale@,
        ),
        packed_biases(mode, layer)[2 * k] + 256 * packed_biases(mode, layer)[2 * k + 1]
            == float::rounded_within(
            float::quotient(layer.biases@[k]@, tensor.scale@),
            32768,
            32767,
        ) % 65536,
{
    quant::law_packed_biases_read_back(layer.biases@, tensor.scale@, k);
    quant::law_packed_bytes(quant::bias_levels(layer.biases@, tensor.scale@), k);
}

/// What is read back for a bias, times the scale that quantizing its layer returns,
/// lies within half a scale of the bias, but for a relative error of 2^-9 of that
/// half. The scale is to be finite and positive, and the bias finite and at most
/// 32767 scales.
pub proof fn law_packed_biases_stand_for_biases(
    mode: QuantMode,
    layer: Layer,
    tensor: QuantTensor,
    scale: nat,
    k: int,
)
    requires
        0 <= k < layer.biases@.len(),
        tensor.quant_bits == weight_bits(mode, layer),
        tensor.scale@ == quant::scale_of(layer.weights@, tensor.quant_bits),
        tensor.scale@ == (float::Value::Finite { negative: false, units: scale }),
        scale >= 1,
        layer.biases@[k].finite(),
        layer.biases@[k].units() <= 32767 * scale,
    ensures
        ({
            let bias = layer.biases@[k];
            let level = quant::unpacked(packed_biases(mode, layer), 16, k);
            let exact = if bias.bits < 0x8000_0000 {
                bias.units() as int
            } else {
                -bias.units()
            };
            &&& 0x400 * (level * scale - exact) <= 0x201 * scale
            &&& 0x400 * (exact - level * scale) <= 0x201 * scale
        }),
{
    law_biases_packed_by_weight_scale(mode, layer, tensor, k);
    quant::law_bias_levels_stand_for_biases(layer.biases@[k], scale);
}

/// In an integer width, what is read back for a weight, times the scale of the
/// weights, lies within half a scale of the weight, but for a relative error of 2^-17
/// of that half. This leaves out infinite weights and peaks, and peaks below 2^16
/// times the smallest positive number, where the scale may have too few digits.
pub proof fn law_packed_weights_stand_for_weights(
    mode: QuantMode,
    layer: Layer,
    tensor: QuantTensor,
    scale: nat,
    k: int,
)
    requires
        0 <= k < layer.weights@.len(),
        tensor.quant_bits == weight_bits(mode, layer),
        tensor.quant_bits != 16,
        tensor.scale@ == quant::scale_of(layer.weights@, tensor.quant_bits),
        tensor.scale@ == (float::Value::Finite { negative: false, units: scale }),
        layer.weights@[k].finite(),
        0x1_0000 <= float::peak(layer.weights@) < float::single_overflow(),
    ensures
        ({
            let weight = layer.weights@[k];
            let level = quant::unpacked(packed_weights(mode, layer), tensor.quant_bits, k);
            let exact = if weight.bits < 0x8000_0000 {
                weight.units() as int
            } else {
                -weight.units()
            };
            &&& 0x4_0000 * (level * scale - exact) <= 0x2_0001 * scale
            &&& 0x4_0000 * (exact - level * scale) <= 0x2_0001 * scale
        }),
{
    let weight = layer.weights@[k];
    let bits = tensor.quant_bits;
    let level = quant::levels_of(layer.weights@, bits)[k];
    quant::law_packed_weights_read_back(layer.weights@, bits, k);
    quant::law_levels_stand_for_weights(layer.weights@, bits, k);
    quant::law_levels_keep_the_sign(
        weight,
        tensor.scale@,
        quant::level_bound(layer.weights@, bits),
    );
    if level < 0 {
        assert((-level) * scale == -(level * scale)) by (nonlinear_arith);
    } else if level == 0 {
        assert(level * scale == 0);
    }
}

/// In the compiled bias data, the bytes of bias `k` of layer `i` lie two for each
/// earlier bias behind the bias offset of the layer's record, and hold the bias by
/// the scale of the layer's weights. The sizes before the layer are to fit in 32
/// bits.
pub proof fn law_bias_bytes_in_bias_data(mode: QuantMode, layers: Seq<Layer>, i: int, k: int)
    requires
        compilable(mode, layers),
        0 <= i < layers.len(),
        forall|j: int| 0 <= j < i ==> 2 * (#[trigger] layers[j]).biases@.len() <= u32::MAX,
        0 <= k < layers[i].biases@.len(),
    ensures
        ({
            let at = records_of(mode, layers)[i].bias_offset + 2 * k;
            &&& 0 <= at < bias_stream(mode, layers).len() - 1
            &&& bias_stream(mode, layers)[at] + 256 * bias_stream(mode, layers)[at + 1]
                == float::rounded_within(
                float::quotient(
                    layers[i].biases@[k]@,
                    quant::scale_of(layers[i].weights@, weight_bits(mode, layers[i])),
                ),
                32768,
                32767,
            ) % 65536
        }),
{
    let layer = layers[i];
    let data = bias_stream(mode, layers);
    let start = records_of(mode, layers)[i].bias_offset as int;
    let end = start + 2 * layer.biases@.len();
    law_biases_found_by_record(mode, layers, i);
    quant::law_packed_bytes(
        quant::bias_levels(
            layer.biases@,
            quant::scale_of(layer.weights@, weight_bits(mode, layer)),
        ),
        k,
    );
    let piece = packed_biases(mode, layer);
    assert(data.subrange(start, end)[2 * k] == data[start + 2 * k]);
    assert(data.subrange(start, end)[2 * k + 1] == data[start + 2 * k + 1]);
    assert(piece[2 * k] == data[start + 2 * k]);
}

/// The cycles that the records of two groups hold add up; those of one record are
/// its cycles.
pub proof fn law_recorded_cycles_add(a: Seq<MetlLayer>, b: Seq<MetlLayer>, record: MetlLayer)
    ensures
        recorded_cycles(a + b) == recorded_cycles(a) + recorded_cycles(b),
        recorded_cycles(seq![record]) == record.cycles,
        recorded_cycles(seq![]) == 0,
    decreases b.len(),
{
    let one = seq![record];
    assert(one.drop_last() =~= Seq::<MetlLayer>::empty());
    assert(one.last() == record);
    reveal_with_fuel(recorded_cycles, 2);
    if b.len() == 0 {
        assert(a + b =~= a);
    } else {
        assert((a + b).drop_last() =~= a + b.drop_last());
        law_recorded_cycles_add(a, b.drop_last(), record);
    }
}

/// Offsets stay within the lengths of the data, and cycles within 32 bits for each
/// layer.
proof fn lemma_totals_bounded(mode: QuantMode, layers: Seq<Layer>)
    ensures
        weight_offset(mode, layers) <= weight_stream(mode, layers).len(),
        bias_offset(layers) <= bias_stream(mode, layers).len(),
        cycles_total(layers) <= 0xFFFF_FFFF * layers.len(),
    decreases layers.len(),
{
    if layers.len() > 0 {
        lemma_totals_bounded(mode, layers.drop_last());
        law_packed_sizes(mode, layers.last());
    }
}

/// Layers compile where counting their weights and their bytes stays within machine
/// integers and the compiled weights and biases take at most what 32 bits count.
pub proof fn law_small_models_compile(mode: QuantMode, layers: Seq<Layer>)
    requires
        forall|i: int|
            0 <= i < layers.len() ==> {
                &&& (#[trigger] layers[i]).weights_countable()
                &&& 4 * layers[i].weights@.len() <= usize::MAX
                &&& 2 * layers[i].biases@.len() <= usize::MAX
            },
        weight_stream(mode, layers).len() <= u32::MAX,
        bias_stream(mode, layers).len() <= u32::MAX,
        layers.len() <= u32::MAX,
    ensures
        compilable(mode, layers),
        forall|i: int| 0 <= i < layers.len() ==> quantizable(mode, #[trigger] layers[i]),
{
    lemma_totals_bounded(mode, layers);
}

} // verus!
