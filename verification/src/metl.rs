//! METL, the binary format for inference chips.

use crate::bytes;
use crate::float;
use crate::float::Binary64;
use crate::layer::QuantMode;
use vstd::prelude::*;

verus! {

/// The header of a METL binary
#[derive(Debug, Clone)]
pub struct MetlHeader {
    pub magic: [u8; 4],
    pub version: u16,
    pub num_layers: u16,
    pub input_size: u32,
    pub output_size: u32,
    pub quant_mode: u8,
    pub checksum: u32,
}

impl MetlHeader {
    /// The encoded header: the fields in order, with three bytes of padding after
    /// the quantization mode.
    pub open spec fn encoded(&self) -> Seq<u8> {
        self.magic@ + bytes::little_u16(self.version) + bytes::little_u16(self.num_layers)
            + bytes::little_u32(self.input_size) + bytes::little_u32(self.output_size)
            + seq![self.quant_mode, 0, 0, 0] + bytes::little_u32(self.checksum)
    }

    /// The header of a binary without layers; its magic bytes spell "METL".
    pub fn new() -> (result: Self)
        ensures
            result.magic@ == seq![0x4Du8, 0x45, 0x54, 0x4C],
            result.version == 1,
            result.num_layers == 0,
            result.input_size == 0,
            result.output_size == 0,
            result.quant_mode == QuantMode::INT8.code_number(),
            result.quant_mode == 1,
            result.checksum == 0,
    {
        let result = MetlHeader {
            magic: [0x4D, 0x45, 0x54, 0x4C],
            version: 1,
            num_layers: 0,
            input_size: 0,
            output_size: 0,
            quant_mode: QuantMode::INT8.code(),
            checksum: 0,
        };
        assert(result.magic@ =~= seq![0x4Du8, 0x45, 0x54, 0x4C]);
        result
    }

    /// Serialize to bytes
    pub fn to_bytes(&self) -> (result: Vec<u8>)
        ensures
            result@ == self.encoded(),
            result@.len() == 24,
    {
        let mut buffer: Vec<u8> = Vec::with_capacity(24);
        bytes::append(&mut buffer, &self.magic);
        bytes::append_u16(&mut buffer, self.version);
        bytes::append_u16(&mut buffer, self.num_layers);
        bytes::append_u32(&mut buffer, self.input_size);
        bytes::append_u32(&mut buffer, self.output_size);
        bytes::append(&mut buffer, &[self.quant_mode, 0, 0, 0]);
        bytes::append_u32(&mut buffer, self.checksum);
        assert(buffer@ =~= self.encoded());
        buffer
    }
}

/// A compiled layer in METL format
#[derive(Debug, Clone)]
pub struct MetlLayer {
    pub layer_id: u16,
    pub op_code: u8,
    pub input_dim: u32,
    pub output_dim: u32,
    pub weight_offset: u32,
    pub weight_size: u32,
    pub bias_offset: u32,
    pub activation: u8,
    pub cycles: u32,
}

impl MetlLayer {
    /// The encoded layer record: the fields in order, without padding. The cycle
    /// estimate is not part of the record.
    pub open spec fn encoded(&self) -> Seq<u8> {
        bytes::little_u16(self.layer_id) + seq![self.op_code] + bytes::little_u32(self.input_dim)
            + bytes::little_u32(self.output_dim) + bytes::little_u32(self.weight_offset)
            + bytes::little_u32(self.weight_size) + bytes::little_u32(self.bias_offset)
            + seq![self.activation]
    }

    /// Serialize to bytes
    pub fn to_bytes(&self) -> (result: Vec<u8>)
        ensures
            result@ == self.encoded(),
            result@.len() == 24,
    {
        let mut buffer: Vec<u8> = Vec::with_capacity(24);
        bytes::append_u16(&mut buffer, self.layer_id);
        buffer.push(self.op_code);
        bytes::append_u32(&mut buffer, self.input_dim);
        bytes::append_u32(&mut buffer, self.output_dim);
        bytes::append_u32(&mut buffer, self.weight_offset);
        bytes::append_u32(&mut buffer, self.weight_size);
        bytes::append_u32(&mut buffer, self.bias_offset);
        buffer.push(self.activation);
        assert(buffer@ =~= self.encoded());
        buffer
    }

    /// The number of bytes that the layer's weights and biases would take in full
    /// precision.
    pub open spec fn full_precision_size(&self) -> nat {
        self.input_dim as nat * self.output_dim as nat * 4 + self.output_dim as nat * 4
    }
}

/// The encoded records of some layers, one after another.
pub open spec fn encoded_records(layers: Seq<MetlLayer>) -> Seq<u8>
    decreases layers.len(),
{
    if layers.len() == 0 {
        Seq::empty()
    } else {
        encoded_records(layers.drop_last()) + layers.last().encoded()
    }
}

/// The number of bytes that the layers' weights and biases would take in full
/// precision.
pub open spec fn full_precision_total(layers: Seq<MetlLayer>) -> nat
    decreases layers.len(),
{
    if layers.len() == 0 {
        0
    } else {
        full_precision_total(layers.drop_last()) + layers.last().full_precision_size()
    }
}

/// A compiled METL binary
#[derive(Debug, Clone)]
pub struct MetlBinary {
    pub header: MetlHeader,
    pub layers: Vec<MetlLayer>,
    pub weight_data: Vec<u8>,
    pub bias_data: Vec<u8>,
    pub total_cycles: u64,
    pub total_size: usize,
}

/// The encoding of a binary from its parts: the header, the layer records, the
/// weights, the biases.
pub open spec fn encoded_parts(
    header: MetlHeader,
    layers: Seq<MetlLayer>,
    weight_data: Seq<u8>,
    bias_data: Seq<u8>,
) -> Seq<u8> {
    header.encoded() + encoded_records(layers) + weight_data + bias_data
}

/// Serializes the parts of a binary.
pub(crate) fn serialize_parts(
    header: &MetlHeader,
    layers: &[MetlLayer],
    weight_data: &[u8],
    bias_data: &[u8],
) -> (result: Vec<u8>)
    ensures
        result@ == encoded_parts(*header, layers@, weight_data@, bias_data@),
{
    let mut buffer: Vec<u8> = header.to_bytes();
    let mut i: usize = 0;
    assert(buffer@ =~= header.encoded() + encoded_records(layers@.take(0)));
    while i < layers.len()
        invariant
            i <= layers.len(),
            buffer@ == header.encoded() + encoded_records(layers@.take(i as int)),
        decreases layers.len() - i,
    {
        let record: Vec<u8> = layers[i].to_bytes();
        bytes::append(&mut buffer, record.as_slice());
        proof {
            let more = layers@.take(i + 1);
            assert(more.drop_last() =~= layers@.take(i as int));
            assert(buffer@ =~= header.encoded() + encoded_records(more));
        }
        i = i + 1;
    }
    assert(layers@.take(layers.len() as int) =~= layers@);
    bytes::append(&mut buffer, weight_data);
    bytes::append(&mut buffer, bias_data);
    buffer
}

impl MetlBinary {
    /// The encoded binary.
    pub open spec fn encoded(&self) -> Seq<u8> {
        encoded_parts(self.header, self.layers@, self.weight_data@, self.bias_data@)
    }

    /// Serialize to bytes
    pub fn to_bytes(&self) -> (result: Vec<u8>)
        ensures
            result@ == self.encoded(),
    {
        serialize_parts(
            &self.header,
            self.layers.as_slice(),
            self.weight_data.as_slice(),
            self.bias_data.as_slice(),
        )
    }

    /// Calculate the compression ratio against full precision
    pub fn compression_ratio(&self) -> (result: Binary64)
        requires
            full_precision_total(self.layers@) <= usize::MAX,
            self.weight_data@.len() + self.bias_data@.len() <= usize::MAX,
        ensures
            result@ == float::count_ratio(
                full_precision_total(self.layers@),
                vstd::math::max(
                    (self.weight_data@.len() + self.bias_data@.len()) as int,
                    1,
                ) as nat,
            ),
    {
        let mut full: usize = 0;
        let mut i: usize = 0;
        while i < self.layers.len()
            invariant
                i <= self.layers@.len(),
                full == full_precision_total(self.layers@.take(i as int)),
                full_precision_total(self.layers@) <= usize::MAX,
            decreases self.layers@.len() - i,
        {
            let layer: &MetlLayer = &self.layers[i];
            proof {
                let more = self.layers@.take(i + 1);
                assert(more.drop_last() =~= self.layers@.take(i as int));
                assert(more.last() == *layer);
                lemma_full_precision_grows(self.layers@, i + 1);
                let inputs = layer.input_dim as nat;
                let outputs = layer.output_dim as nat;
                assert(inputs * outputs * 4 >= inputs * outputs) by (nonlinear_arith)
                    requires
                        inputs * outputs >= 0,
                ;
            }
            let weights: usize = layer.input_dim as usize * layer.output_dim as usize * 4;
            full = full + (weights + layer.output_dim as usize * 4);
            i = i + 1;
        }
        assert(self.layers@.take(self.layers@.len() as int) =~= self.layers@);
        let size: usize = self.weight_data.len() + self.bias_data.len();
        let divisor: usize = if size > 1 {
            size
        } else {
            1
        };
        Binary64::ratio(full as u64, divisor as u64)
    }
}

/// Leading layers take no more full-precision bytes than all of them.
proof fn lemma_full_precision_grows(layers: Seq<MetlLayer>, n: int)
    requires
        0 <= n <= layers.len(),
    ensures
        full_precision_total(layers.take(n)) <= full_precision_total(layers),
    decreases layers.len() - n,
{
    if n == layers.len() {
        assert(layers.take(n) =~= layers);
    } else {
        lemma_full_precision_grows(layers, n + 1);
        assert(layers.take(n + 1).drop_last() =~= layers.take(n));
    }
}

/// The bytes that two groups of layers would take in full precision add up, and no
/// layers take none.
pub proof fn law_full_precision_adds(a: Seq<MetlLayer>, b: Seq<MetlLayer>)
    ensures
        full_precision_total(a + b) == full_precision_total(a) + full_precision_total(b),
        full_precision_total(seq![]) == 0,
    decreases b.len(),
{
    if b.len() == 0 {
        assert(a + b =~= a);
    } else {
        assert((a + b).drop_last() =~= a + b.drop_last());
        law_full_precision_adds(a, b.drop_last());
    }
}

/// In full precision one layer takes four bytes for each pair of an input and an
/// output, and four for each output.
pub proof fn law_full_precision_of_one(layer: MetlLayer)
    ensures
        full_precision_total(seq![layer]) == 4 * (layer.input_dim * layer.output_dim
            + layer.output_dim),
{
    let one = seq![layer];
    assert(one.drop_last() =~= Seq::<MetlLayer>::empty());
    assert(one.last() == layer);
    reveal_with_fuel(full_precision_total, 2);
}

/// The records of two groups of layers follow one another, and those of one layer
/// are its record.
pub proof fn law_records_concatenate(a: Seq<MetlLayer>, b: Seq<MetlLayer>, layer: MetlLayer)
    ensures
        encoded_records(a + b) == encoded_records(a) + encoded_records(b),
        encoded_records(seq![layer]) == layer.encoded(),
        encoded_records(seq![]) == Seq::<u8>::empty(),
    decreases b.len(),
{
    let one = seq![layer];
    assert(one.drop_last() =~= Seq::<MetlLayer>::empty());
    reveal_with_fuel(encoded_records, 2);
    assert(encoded_records(one) =~= layer.encoded());
    if b.len() == 0 {
        assert(a + b =~= a);
        assert(encoded_records(a) + encoded_records(b) =~= encoded_records(a));
    } else {
        assert((a + b).drop_last() =~= a + b.drop_last());
        law_records_concatenate(a, b.drop_last(), layer);
        assert(encoded_records(a + b) =~= encoded_records(a) + encoded_records(b));
    }
}

/// Every field of a header can be read back from its encoding, at a fixed place,
/// and the three bytes after the quantization mode are zero.
#[verifier::rlimit(40)]
pub proof fn law_header_reads_back(header: MetlHeader)
    ensures
        header.encoded().len() == 24,
        header.encoded().subrange(0, 4) == header.magic@,
        bytes::read_u16(header.encoded().subrange(4, 6)) == header.version,
        bytes::read_u16(header.encoded().subrange(6, 8)) == header.num_layers,
        bytes::read_u32(header.encoded().subrange(8, 12)) == header.input_size,
        bytes::read_u32(header.encoded().subrange(12, 16)) == header.output_size,
        header.encoded()[16] == header.quant_mode,
        header.encoded()[17] == 0,
        header.encoded()[18] == 0,
        header.encoded()[19] == 0,
        bytes::read_u32(header.encoded().subrange(20, 24)) == header.checksum,
{
    assert(header.encoded().subrange(0, 4) =~= header.magic@);
    assert(header.encoded().subrange(4, 6) =~= bytes::little_u16(header.version));
    assert(header.encoded().subrange(6, 8) =~= bytes::little_u16(header.num_layers));
    assert(header.encoded().subrange(8, 12) =~= bytes::little_u32(header.input_size));
    assert(header.encoded().subrange(12, 16) =~= bytes::little_u32(header.output_size));
    assert(header.encoded().subrange(20, 24) =~= bytes::little_u32(header.checksum));
    bytes::law_read_gives_back(header.version, header.input_size);
    bytes::law_read_gives_back(header.num_layers, header.output_size);
    bytes::law_read_gives_back(0, header.checksum);
}

/// Every field of a layer record but the cycle estimate can be read back from its
/// encoding, at a fixed place.
#[verifier::rlimit(40)]
pub proof fn law_record_reads_back(layer: MetlLayer)
    ensures
        layer.encoded().len() == 24,
        bytes::read_u16(layer.encoded().subrange(0, 2)) == layer.layer_id,
        layer.encoded()[2] == layer.op_code,
        bytes::read_u32(layer.encoded().subrange(3, 7)) == layer.input_dim,
        bytes::read_u32(layer.encoded().subrange(7, 11)) == layer.output_dim,
        bytes::read_u32(layer.encoded().subrange(11, 15)) == layer.weight_offset,
        bytes::read_u32(layer.encoded().subrange(15, 19)) == layer.weight_size,
        bytes::read_u32(layer.encoded().subrange(19, 23)) == layer.bias_offset,
        layer.encoded()[23] == layer.activation,
{
    assert(layer.encoded().subrange(0, 2) =~= bytes::little_u16(layer.layer_id));
    assert(layer.encoded().subrange(3, 7) =~= bytes::little_u32(layer.input_dim));
    assert(layer.encoded().subrange(7, 11) =~= bytes::little_u32(layer.output_dim));
    assert(layer.encoded().subrange(11, 15) =~= bytes::little_u32(layer.weight_offset));
    assert(layer.encoded().subrange(15, 19) =~= bytes::little_u32(layer.weight_size));
    assert(layer.encoded().subrange(19, 23) =~= bytes::little_u32(layer.bias_offset));
    bytes::law_read_gives_back(layer.layer_id, layer.input_dim);
    bytes::law_read_gives_back(0, layer.output_dim);
    bytes::law_read_gives_back(0, layer.weight_offset);
    bytes::law_read_gives_back(0, layer.weight_size);
    bytes::law_read_gives_back(0, layer.bias_offset);
}

/// A piece of the first part of a concatenation, and the whole second part.
proof fn lemma_concatenated(a: Seq<u8>, b: Seq<u8>, from: int, end: int)
    ensures
        0 <= from <= end <= a.len() ==> (a + b).subrange(from, end) == a.subrange(from, end),
        (a + b).subrange(a.len() as int, (a.len() + b.len()) as int) == b,
{
    if 0 <= from <= end <= a.len() {
        assert((a + b).subrange(from, end) =~= a.subrange(from, end));
    }
    assert((a + b).subrange(a.len() as int, (a.len() + b.len()) as int) =~= b);
}

/// The records of some layers take 24 bytes each.
proof fn lemma_records_length(layers: Seq<MetlLayer>)
    ensures
        encoded_records(layers).len() == 24 * layers.len(),
    decreases layers.len(),
{
    if layers.len() > 0 {
        lemma_records_length(layers.drop_last());
        law_record_reads_back(layers.last());
    }
}

/// The record of a layer lies where its position puts it.
proof fn lemma_record_at(layers: Seq<MetlLayer>, i: int)
    requires
        0 <= i < layers.len(),
    ensures
        encoded_records(layers).subrange(24 * i, 24 * i + 24) == layers[i].encoded(),
    decreases layers.len(),
{
    let fewer = layers.drop_last();
    lemma_records_length(fewer);
    law_record_reads_back(layers.last());
    lemma_concatenated(encoded_records(fewer), layers.last().encoded(), 24 * i, 24 * i + 24);
    if i < fewer.len() {
        lemma_record_at(fewer, i);
    }
}

/// The parts of a binary can be cut out of its encoding: the header, each layer
/// record, the weights and the biases, and nothing else is in it.
#[verifier::rlimit(40)]
pub proof fn law_sections_read_back(binary: MetlBinary)
    ensures
        binary.encoded().len() == 24 + 24 * binary.layers@.len() + binary.weight_data@.len()
            + binary.bias_data@.len(),
        binary.encoded().subrange(0, 24) == binary.header.encoded(),
        forall|i: int|
            0 <= i < binary.layers@.len() ==> binary.encoded().subrange(24 + 24 * i, 48 + 24 * i)
                == (#[trigger] binary.layers@[i]).encoded(),
        binary.encoded().skip((24 + 24 * binary.layers@.len()) as int) == binary.weight_data@
            + binary.bias_data@,
{
    let layers = binary.layers@;
    law_header_reads_back(binary.header);
    lemma_records_length(layers);
    lemma_four_parts(
        binary.header.encoded(),
        encoded_records(layers),
        binary.weight_data@,
        binary.bias_data@,
    );
    assert forall|i: int| 0 <= i < layers.len() implies binary.encoded().subrange(
        24 + 24 * i,
        48 + 24 * i,
    ) == (#[trigger] layers[i]).encoded() by {
        lemma_record_at(layers, i);
        lemma_second_part(
            binary.header.encoded(),
            encoded_records(layers),
            binary.weight_data@,
            binary.bias_data@,
            24 * i,
            24 * i + 24,
        );
    }
}

/// The first part of a concatenation of four, and what follows the second part.
proof fn lemma_four_parts(a: Seq<u8>, b: Seq<u8>, c: Seq<u8>, d: Seq<u8>)
    ensures
        (a + b + c + d).subrange(0, a.len() as int) == a,
        (a + b + c + d).skip((a.len() + b.len()) as int) == c + d,
{
    assert((a + b + c + d).subrange(0, a.len() as int) =~= a);
    assert((a + b + c + d).skip((a.len() + b.len()) as int) =~= c + d);
}

/// A piece of the second part of a concatenation of four.
proof fn lemma_second_part(
    a: Seq<u8>,
    b: Seq<u8>,
    c: Seq<u8>,
    d: Seq<u8>,
    from: int,
    end: int,
)
    requires
        0 <= from <= end <= b.len(),
    ensures
        (a + b + c + d).subrange(a.len() + from, a.len() + end) == b.subrange(from, end),
{
    assert((a + b + c + d).subrange(a.len() + from, a.len() + end) =~= b.subrange(from, end));
}

/// The bytes of a binary sum to the sum without the checksum plus the bytes of the
/// checksum, so that a reader can compare the two.
#[verifier::rlimit(40)]
pub proof fn law_checksum_adds_its_bytes(
    header: MetlHeader,
    layers: Seq<MetlLayer>,
    weight_data: Seq<u8>,
    bias_data: Seq<u8>,
)
    ensures
        bytes::byte_sum(encoded_parts(header, layers, weight_data, bias_data)) == bytes::byte_sum(
            encoded_parts(MetlHeader { checksum: 0, ..header }, layers, weight_data, bias_data),
        ) + bytes::byte_sum(bytes::little_u32(header.checksum)),
{
    let blank = MetlHeader { checksum: 0, ..header };
    let records = encoded_records(layers);
    lemma_header_sum(header);
    lemma_parts_sum(header.encoded(), records, weight_data, bias_data);
    lemma_parts_sum(blank.encoded(), records, weight_data, bias_data);
}

/// The bytes of a header sum to the sum without the checksum plus the bytes of the
/// checksum.
#[verifier::rlimit(40)]
proof fn lemma_header_sum(header: MetlHeader)
    ensures
        bytes::byte_sum(header.encoded()) == bytes::byte_sum(
            (MetlHeader { checksum: 0, ..header }).encoded(),
        ) + bytes::byte_sum(bytes::little_u32(header.checksum)),
{
    let front = header.magic@ + bytes::little_u16(header.version) + bytes::little_u16(
        header.num_layers,
    ) + bytes::little_u32(header.input_size) + bytes::little_u32(header.output_size)
        + seq![header.quant_mode, 0, 0, 0];
    let zeros = bytes::little_u32(0);
    bytes::law_byte_sum_adds(front, bytes::little_u32(header.checksum));
    bytes::law_byte_sum_adds(front, zeros);
    assert(bytes::byte_sum(zeros) == 0) by {
        assert(zeros.drop_last().drop_last().drop_last().drop_last().len() == 0);
        reveal_with_fuel(bytes::byte_sum, 5);
    }
}

/// The bytes of four parts sum to the sum of the parts' sums.
proof fn lemma_parts_sum(a: Seq<u8>, b: Seq<u8>, c: Seq<u8>, d: Seq<u8>)
    ensures
        bytes::byte_sum(a + b + c + d) == bytes::byte_sum(a) + bytes::byte_sum(b)
            + bytes::byte_sum(c) + bytes::byte_sum(d),
{
    bytes::law_byte_sum_adds(a, b);
    bytes::law_byte_sum_adds(a + b, c);
    bytes::law_byte_sum_adds(a + b + c, d);
}

} // verus!
