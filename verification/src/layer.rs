//! Network layers and how they are to be quantized.

use crate::float::Binary32;
use vstd::prelude::*;

verus! {

/// Quantization mode
#[derive(Debug, Clone, Copy, PartialEq, Eq, Structural)]
pub enum QuantMode {
    INT4,
    INT8,
    FP16,
    /// The width is chosen for each layer by its number of weights.
    Mixed,
}

impl QuantMode {
    /// The number that stands for the mode in a METL header.
    pub open spec fn code_number(self) -> u8 {
        match self {
            QuantMode::INT4 => 0,
            QuantMode::INT8 => 1,
            QuantMode::FP16 => 2,
            QuantMode::Mixed => 3,
        }
    }

    /// The number that stands for the mode in a METL header.
    pub fn code(self) -> (result: u8)
        ensures
            result == self.code_number(),
            self == QuantMode::INT4 <==> result == 0,
            self == QuantMode::INT8 <==> result == 1,
            self == QuantMode::FP16 <==> result == 2,
            self == QuantMode::Mixed <==> result == 3,
    {
        match self {
            QuantMode::INT4 => 0,
            QuantMode::INT8 => 1,
            QuantMode::FP16 => 2,
            QuantMode::Mixed => 3,
        }
    }
}

/// The activation that follows a layer.
#[derive(Debug, Clone, PartialEq, Eq, Structural)]
pub enum Activation {
    Relu,
    Gelu,
    Sigmoid,
    Tanh,
    /// No activation.
    Identity,
}

impl Activation {
    /// The number that stands for the activation in a METL layer record.
    pub open spec fn code_number(self) -> u8 {
        match self {
            Activation::Relu => 1,
            Activation::Gelu => 2,
            Activation::Sigmoid => 3,
            Activation::Tanh => 4,
            Activation::Identity => 0,
        }
    }

    /// The number that stands for the activation in a METL layer record.
    pub fn code(&self) -> (result: u8)
        ensures
            result == self.code_number(),
            *self == Activation::Identity <==> result == 0,
            *self == Activation::Relu <==> result == 1,
            *self == Activation::Gelu <==> result == 2,
            *self == Activation::Sigmoid <==> result == 3,
            *self == Activation::Tanh <==> result == 4,
    {
        match self {
            Activation::Relu => 1,
            Activation::Gelu => 2,
            Activation::Sigmoid => 3,
            Activation::Tanh => 4,
            Activation::Identity => 0,
        }
    }
}

/// A layer in a neural network
#[derive(Debug, Clone)]
pub struct Layer {
    pub id: usize,
    pub name: String,
    pub input_channels: usize,
    pub output_channels: usize,
    pub kernel_size: Option<(usize, usize)>,
    pub weights: Vec<Binary32>,
    pub biases: Vec<Binary32>,
    pub quant_mode: QuantMode,
    pub activation: Activation,
    pub cycles_estimate: u64,
    pub memory_bytes: usize,
}

impl Layer {
    /// The number of positions that the kernel covers; one for a dense layer.
    pub open spec fn kernel_area(&self) -> nat {
        match self.kernel_size {
            Some((height, width)) => height as nat * width as nat,
            None => 1,
        }
    }

    /// The number of weights that the dimensions call for.
    pub open spec fn weight_total(&self) -> nat {
        self.input_channels as nat * self.output_channels as nat * self.kernel_area()
    }

    /// The number of weights and biases that the dimensions call for.
    pub open spec fn param_total(&self) -> nat {
        self.weight_total() + self.output_channels as nat
    }

    /// Whether counting the weights stays within machine integers at every step.
    pub open spec fn weights_countable(&self) -> bool {
        &&& self.input_channels as nat * self.output_channels as nat <= usize::MAX
        &&& self.kernel_area() <= usize::MAX
        &&& self.weight_total() <= usize::MAX
    }

    /// Whether counting the parameters stays within machine integers at every step.
    pub open spec fn params_countable(&self) -> bool {
        self.weights_countable() && self.param_total() <= usize::MAX
    }

    /// The number of weights that the dimensions call for.
    pub fn weight_count(&self) -> (result: usize)
        requires
            self.weights_countable(),
        ensures
            result == self.weight_total(),
            self.kernel_size is None ==> result == self.input_channels * self.output_channels,
            self.kernel_size matches Some((height, width)) ==> result == self.input_channels
                * self.output_channels * (height * width),
    {
        let area: usize = match self.kernel_size {
            Some((height, width)) => height * width,
            None => 1,
        };
        self.input_channels * self.output_channels * area
    }

    /// The number of weights and biases that the dimensions call for.
    pub fn total_params(&self) -> (result: usize)
        requires
            self.params_countable(),
        ensures
            result == self.param_total(),
            self.kernel_size is None ==> result == self.input_channels * self.output_channels
                + self.output_channels,
            self.kernel_size matches Some((height, width)) ==> result == self.input_channels
                * self.output_channels * (height * width) + self.output_channels,
    {
        self.weight_count() + self.output_channels
    }
}

/// A dense layer has one weight for each pair of an input and an output; a
/// convolution has that many for each position of its kernel. Each output adds a
/// bias to the parameters.
pub proof fn law_counts_follow_dimensions(layer: Layer)
    ensures
        layer.kernel_size is None ==> layer.weight_total() == layer.input_channels
            * layer.output_channels,
        layer.kernel_size matches Some((height, width)) ==> layer.weight_total()
            == layer.input_channels * layer.output_channels * (height * width),
        layer.param_total() == layer.weight_total() + layer.output_channels,
{
}

/// Counting is within machine integers exactly where the number of channel pairs,
/// the kernel's area and their product are, and for parameters where the sum with
/// the outputs is too.
pub proof fn law_when_countable(layer: Layer)
    ensures
        layer.kernel_size is None ==> (layer.weights_countable() <==> layer.input_channels
            * layer.output_channels <= usize::MAX),
        layer.kernel_size matches Some((height, width)) ==> (layer.weights_countable() <==> {
            &&& layer.input_channels * layer.output_channels <= usize::MAX
            &&& height * width <= usize::MAX
            &&& layer.input_channels * layer.output_channels * (height * width) <= usize::MAX
        }),
        layer.params_countable() <==> layer.weights_countable() && layer.weight_total()
            + layer.output_channels <= usize::MAX,
{
}

/// The number of a mode and the number of an activation tell which it is.
pub proof fn law_codes(mode: QuantMode, activation: Activation)
    ensures
        mode == QuantMode::INT4 <==> mode.code_number() == 0,
        mode == QuantMode::INT8 <==> mode.code_number() == 1,
        mode == QuantMode::FP16 <==> mode.code_number() == 2,
        mode == QuantMode::Mixed <==> mode.code_number() == 3,
        activation == Activation::Identity <==> activation.code_number() == 0,
        activation == Activation::Relu <==> activation.code_number() == 1,
        activation == Activation::Gelu <==> activation.code_number() == 2,
        activation == Activation::Sigmoid <==> activation.code_number() == 3,
        activation == Activation::Tanh <==> activation.code_number() == 4,
{
}

} // verus!
