# neural_compiler

Quantizes the weights of neural-network layers, writes METL binaries for inference
chips and schedules layers on them. The library is verified with Verus: every
public function has a contract, and the properties that span functions are proved
as `law_*` functions.

| module | contents |
|--------|----------|
| `rounding` | rounding of exact ratios to a number of binary digits |
| `float` | single- and double-precision numbers by bit pattern, and their arithmetic |
| `layer` | layers, quantization modes, activations |
| `quant` | scales, levels, packing |
| `bytes` | little-endian encoding, byte sums |
| `metl` | header, layer records and binaries |
| `compiler` | quantizing a layer, compiling a model |
| `schedule` | execution order, cycles and memory |

Floating-point numbers appear in the library as bit patterns only (`Binary32`,
`Binary64`); `app/` converts from and to native floats.

A METL binary is a header of 24 bytes, a record of 24 bytes for each layer, the
packed weights and the packed biases. The header's checksum is the sum of all bytes
with the checksum itself taken as zero. A record holds all fields of a compiled
layer but its cycle estimate.

Tensors of the 16-bit mode hold two bytes for each weight and are reported with
their full-precision size.
