//! Scheduling of layers on an inference chip.

use crate::compiler::NeuralCompiler;
use crate::layer::Layer;
use crate::rounding;
use vstd::prelude::*;

verus! {

/// Layer schedule: the execution order on an inference chip
#[derive(Debug, Clone)]
pub struct LayerSchedule {
    pub layers: Vec<ScheduledLayer>,
    pub total_cycles: u64,
    pub peak_memory_bytes: usize,
    pub pipeline_depth: usize,
}

/// The place of one layer in a schedule.
#[derive(Debug, Clone)]
pub struct ScheduledLayer {
    pub layer_id: usize,
    pub start_cycle: u64,
    pub end_cycle: u64,
    pub memory_at_start: usize,
    pub can_pipeline: bool,
}

/// Whether a layer can overlap with the one before it: the outputs of that one
/// are as many as its own inputs.
pub open spec fn pipelined(layers: Seq<Layer>, i: int) -> bool {
    i > 0 && layers[i - 1].output_channels == layers[i].input_channels
}

/// A number cut off at what 64 bits hold.
pub open spec fn saturated(n: nat) -> nat {
    if n < u64::MAX {
        n
    } else {
        u64::MAX as nat
    }
}

/// The cycles that a layer takes: one for each weight where it is pipelined, and
/// one and a half elsewhere, in double precision.
pub open spec fn layer_cycles(layers: Seq<Layer>, i: int) -> nat {
    if pipelined(layers, i) {
        saturated(rounding::nearest_double(layers[i].weight_total()))
    } else {
        saturated(rounding::three_halves(layers[i].weight_total()))
    }
}

/// The cycle at which a layer starts: a pipelined layer delays the next one by
/// half of its cycles, any other layer by all of them.
pub open spec fn start_cycle(layers: Seq<Layer>, i: int) -> nat
    decreases i,
{
    if i <= 0 {
        0
    } else if pipelined(layers, i - 1) {
        start_cycle(layers, i - 1) + layer_cycles(layers, i - 1) / 2
    } else {
        start_cycle(layers, i - 1) + layer_cycles(layers, i - 1)
    }
}

/// The memory that is left after unloading, of the layers from `from` on and below
/// `end`, the first `count` ones that are not pipelined.
pub open spec fn unloaded(
    layers: Seq<Layer>,
    from: int,
    end: int,
    count: nat,
    memory: nat,
) -> nat
    decreases end - from,
{
    if from >= end || count == 0 {
        memory
    } else if pipelined(layers, from) {
        unloaded(layers, from + 1, end, count, memory)
    } else {
        let size = layers[from].param_total();
        let left = if memory > size {
            (memory - size) as nat
        } else {
            0
        };
        unloaded(layers, from + 1, end, (count - 1) as nat, left)
    }
}

/// The memory held when it is a layer's turn, in parameters.
pub open spec fn memory_before(layers: Seq<Layer>, bram_size_kb: nat, i: int) -> nat
    decreases i, 0int,
{
    if i <= 0 {
        0
    } else {
        memory_at_start(layers, bram_size_kb, i - 1) + layers[i - 1].param_total()
    }
}

/// The memory held when a layer starts, in parameters: where the layer would not
/// fit, the two oldest layers that are not pipelined and lie more than two back
/// are unloaded first.
pub open spec fn memory_at_start(layers: Seq<Layer>, bram_size_kb: nat, i: int) -> nat
    decreases i, 1int,
{
    let held = memory_before(layers, bram_size_kb, i);
    if held + layers[i].param_total() > bram_size_kb * 1024 {
        unloaded(layers, 0, i - 2, 2, held)
    } else {
        held
    }
}

/// The largest memory held during the first `n` layers, in parameters.
pub open spec fn peak_memory(layers: Seq<Layer>, bram_size_kb: nat, n: int) -> nat
    decreases n,
{
    if n <= 0 {
        0
    } else {
        let before = peak_memory(layers, bram_size_kb, n - 1);
        let last = memory_before(layers, bram_size_kb, n);
        if before < last {
            last
        } else {
            before
        }
    }
}

/// The number of pipelined layers among the first `n`.
pub open spec fn pipelined_count(layers: Seq<Layer>, n: int) -> nat
    decreases n,
{
    if n <= 0 {
        0
    } else if pipelined(layers, n - 1) {
        pipelined_count(layers, n - 1) + 1
    } else {
        pipelined_count(layers, n - 1)
    }
}

/// The place of a layer in the schedule.
pub open spec fn place(layers: Seq<Layer>, bram_size_kb: nat, i: int) -> ScheduledLayer {
    ScheduledLayer {
        layer_id: i as usize,
        start_cycle: start_cycle(layers, i) as u64,
        end_cycle: (start_cycle(layers, i) + layer_cycles(layers, i)) as u64,
        memory_at_start: memory_at_start(layers, bram_size_kb, i) as usize,
        can_pipeline: pipelined(layers, i),
    }
}

/// The places of all layers, in order.
pub open spec fn places(layers: Seq<Layer>, bram_size_kb: nat) -> Seq<ScheduledLayer> {
    Seq::new(layers.len(), |i: int| place(layers, bram_size_kb, i))
}

/// Whether the sizes and cycles of a schedule stay within the integers that hold them.
pub open spec fn schedulable(layers: Seq<Layer>, bram_size_kb: nat) -> bool {
    &&& layers.len() > 0 ==> bram_size_kb * 1024 <= usize::MAX
    &&& forall|i: int|
        0 <= i < layers.len() ==> {
            &&& (#[trigger] layers[i]).params_countable()
            &&& memory_before(layers, bram_size_kb, i) + layers[i].param_total() <= usize::MAX
            &&& start_cycle(layers, i) + layer_cycles(layers, i) <= u64::MAX
        }
    &&& peak_memory(layers, bram_size_kb, layers.len() as int) * 4 <= usize::MAX
}

/// Unloading layers does not add memory.
proof fn lemma_unloading_shrinks(
    layers: Seq<Layer>,
    from: int,
    end: int,
    count: nat,
    memory: nat,
)
    ensures
        unloaded(layers, from, end, count, memory) <= memory,
    decreases end - from,
{
    if from < end && count > 0 {
        if pipelined(layers, from) {
            lemma_unloading_shrinks(layers, from + 1, end, count, memory);
        } else {
            let size = layers[from].param_total();
            let left = if memory > size {
                (memory - size) as nat
            } else {
                0
            };
            lemma_unloading_shrinks(layers, from + 1, end, (count - 1) as nat, left);
        }
    }
}

/// The memory left after the two oldest layers that are not pipelined and lie more
/// than two before layer `i` are unloaded.
#[verifier::rlimit(40)]
fn unload(layers: &[Layer], scheduled: &Vec<ScheduledLayer>, i: usize, memory: usize) -> (result:
    usize)
    requires
        i == scheduled@.len(),
        i <= layers@.len(),
        forall|j: int| 0 <= j < layers@.len() ==> (#[trigger] layers@[j]).params_countable(),
        forall|j: int|
            0 <= j < i ==> (#[trigger] scheduled@[j]).can_pipeline == pipelined(layers@, j),
    ensures
        result == unloaded(layers@, 0, i - 2, 2, memory as nat),
{
    let mut left: usize = memory;
    let mut count: u32 = 2;
    let mut j: usize = 0;
    while j < i && i - j > 2 && count > 0
        invariant
            i == scheduled@.len(),
            i <= layers@.len(),
            forall|k: int| 0 <= k < layers@.len() ==> (#[trigger] layers@[k]).params_countable(),
            forall|k: int|
                0 <= k < i ==> (#[trigger] scheduled@[k]).can_pipeline == pipelined(layers@, k),
            j <= i,
            count <= 2,
            unloaded(layers@, 0, i - 2, 2, memory as nat) == unloaded(
                layers@,
                j as int,
                i - 2,
                count as nat,
                left as nat,
            ),
        decreases i - j,
    {
        if !scheduled[j].can_pipeline {
            let size: usize = layers[j].total_params();
            left = if left > size {
                left - size
            } else {
                0
            };
            count = count - 1;
        }
        j = j + 1;
    }
    left
}

/// A wide number cut off at what 64 bits hold.
fn saturate(n: u128) -> (result: u64)
    ensures
        result == saturated(n as nat),
{
    if n < u64::MAX as u128 {
        n as u64
    } else {
        u64::MAX
    }
}

/// Whether a layer can overlap with the one before it.
fn can_overlap(layers: &[Layer], i: usize) -> (result: bool)
    requires
        i < layers@.len(),
    ensures
        result == pipelined(layers@, i as int),
{
    i > 0 && layers[i - 1].output_channels == layers[i].input_channels
}

/// The cycles that a layer takes.
fn duration(layers: &[Layer], i: usize, can_pipeline: bool) -> (result: u64)
    requires
        i < layers@.len(),
        layers@[i as int].weights_countable(),
        can_pipeline == pipelined(layers@, i as int),
    ensures
        result == layer_cycles(layers@, i as int),
{
    let count: u64 = layers[i].weight_count() as u64;
    if can_pipeline {
        saturate(rounding::double_of(count))
    } else {
        saturate(rounding::half_again(count))
    }
}

/// The memory that is held once there is room for a layer, or nothing more to unload.
#[verifier::rlimit(40)]
fn make_room(
    layers: &[Layer],
    scheduled: &Vec<ScheduledLayer>,
    bram_size_kb: usize,
    memory: usize,
) -> (result: usize)
    requires
        schedulable(layers@, bram_size_kb as nat),
        scheduled@.len() < layers@.len(),
        scheduled@ == places(layers@, bram_size_kb as nat).take(scheduled@.len() as int),
        memory == memory_before(layers@, bram_size_kb as nat, scheduled@.len() as int),
    ensures
        result == memory_at_start(layers@, bram_size_kb as nat, scheduled@.len() as int),
        result <= memory,
{
    let i: usize = scheduled.len();
    let ghost kb: nat = bram_size_kb as nat;
    assert(layers@[i as int].params_countable());
    let size: usize = layers[i].total_params();
    if memory + size > bram_size_kb * 1024 {
        proof {
            lemma_unloading_shrinks(layers@, 0, i - 2, 2, memory as nat);
            assert forall|j: int| 0 <= j < i implies (#[trigger] scheduled@[j]).can_pipeline
                == pipelined(layers@, j) by {
                assert(scheduled@[j] == place(layers@, kb, j));
            }
        }
        unload(layers, scheduled, i, memory)
    } else {
        memory
    }
}

impl NeuralCompiler {
    /// Generate layer execution schedule
    #[verifier::rlimit(60)]
    pub fn schedule(&self, layers: &[Layer], bram_size_kb: usize) -> (result: LayerSchedule)
        requires
            schedulable(layers@, bram_size_kb as nat),
        ensures
            result.layers@ == places(layers@, bram_size_kb as nat),
            result.total_cycles == start_cycle(layers@, layers@.len() as int),
            result.peak_memory_bytes == 4 * peak_memory(
                layers@,
                bram_size_kb as nat,
                layers@.len() as int,
            ),
            result.pipeline_depth == pipelined_count(layers@, layers@.len() as int),
            result.layers@.len() == layers@.len(),
            forall|i: int|
                0 <= i < layers@.len() ==> {
                    let slot = #[trigger] result.layers@[i];
                    let count = layers@[i].weight_total() as int;
                    &&& slot.layer_id == i
                    &&& slot.can_pipeline <==> i > 0 && layers@[i - 1].output_channels
                        == layers@[i].input_channels
                    &&& 3 * count < 0x20_0000_0000_0000 ==> slot.end_cycle == slot.start_cycle + (
                    if slot.can_pipeline {
                        count
                    } else {
                        3 * count / 2
                    })
                },
            layers@.len() > 0 ==> {
                let last = result.layers@.last();
                &&& result.layers@.first().start_cycle == 0
                &&& result.layers@.first().memory_at_start == 0
                &&& result.total_cycles == last.start_cycle + (if last.can_pipeline {
                    (last.end_cycle - last.start_cycle) / 2
                } else {
                    last.end_cycle - last.start_cycle
                })
            },
            layers@.len() == 0 ==> result.total_cycles == 0,
            forall|i: int, j: int|
                #![trigger result.layers@[i], result.layers@[j]]
                0 <= i && j == i + 1 && j < layers@.len() ==> {
                    let slot = result.layers@[i];
                    let held = slot.memory_at_start + layers@[i].param_total();
                    &&& result.layers@[j].start_cycle == slot.start_cycle + (if slot.can_pipeline {
                        (slot.end_cycle - slot.start_cycle) / 2
                    } else {
                        slot.end_cycle - slot.start_cycle
                    })
                    &&& result.layers@[j].memory_at_start <= held
                    &&& held + layers@[j].param_total() <= bram_size_kb * 1024
                        ==> result.layers@[j].memory_at_start == held
                    &&& j <= 2 ==> result.layers@[j].memory_at_start == held
                },
            forall|i: int|
                0 <= i < layers@.len() ==> 4 * ((#[trigger] result.layers@[i]).memory_at_start
                    + layers@[i].param_total()) <= result.peak_memory_bytes,
            layers@.len() > 0 ==> exists|i: int|
                0 <= i < layers@.len() && 4 * ((#[trigger] result.layers@[i]).memory_at_start
                    + layers@[i].param_total()) == result.peak_memory_bytes,
            layers@.len() == 0 ==> result.peak_memory_bytes == 0,
            result.pipeline_depth == result.layers@.filter(
                |slot: ScheduledLayer| slot.can_pipeline,
            ).len(),
    {
        let ghost kb: nat = bram_size_kb as nat;
        let mut scheduled: Vec<ScheduledLayer> = Vec::new();
        let mut cycle: u64 = 0;
        let mut memory: usize = 0;
        let mut peak: usize = 0;
        let mut depth: usize = 0;
        let mut i: usize = 0;
        while i < layers.len()
            invariant
                kb == bram_size_kb,
                schedulable(layers@, kb),
                i <= layers@.len(),
                scheduled@ == places(layers@, kb).take(i as int),
                cycle == start_cycle(layers@, i as int),
                memory == memory_before(layers@, kb, i as int),
                peak == peak_memory(layers@, kb, i as int),
                depth == pipelined_count(layers@, i as int),
                depth <= i,
            decreases layers@.len() - i,
        {
            assert(layers@[i as int].params_countable());
            let size: usize = layers[i].total_params();
            memory = make_room(layers, &scheduled, bram_size_kb, memory);
            let can_pipeline: bool = can_overlap(layers, i);
            let cycles: u64 = duration(layers, i, can_pipeline);
            scheduled.push(
                ScheduledLayer {
                    layer_id: i,
                    start_cycle: cycle,
                    end_cycle: cycle + cycles,
                    memory_at_start: memory,
                    can_pipeline,
                },
            );
            assert(scheduled@ =~= places(layers@, kb).take(i + 1)) by {
                assert(scheduled@[i as int] == place(layers@, kb, i as int));
            }
            memory = memory + size;
            if memory > peak {
                peak = memory;
            }
            if can_pipeline {
                cycle = cycle + cycles / 2;
                depth = depth + 1;
            } else {
                cycle = cycle + cycles;
            }
            i = i + 1;
        }
        let result = LayerSchedule {
            layers: scheduled,
            total_cycles: cycle,
            peak_memory_bytes: peak * 4,
            pipeline_depth: depth,
        };
        proof {
            let n = layers@.len() as int;
            assert(places(layers@, kb).take(n) =~= places(layers@, kb));
            assert(result.layers@ == places(layers@, kb));
            law_slots_by_fields(layers@, kb);
            lemma_depth_counts(layers@, kb, n);
            assert forall|i: int| 0 <= i < n implies 4 * ((
            #[trigger] result.layers@[i]).memory_at_start + layers@[i].param_total())
                <= result.peak_memory_bytes by {
                law_peak_covers(layers@, kb, n, i);
            }
            if n > 0 {
                let i = law_peak_is_reached(layers@, kb, n);
                let slot = result.layers@[i];
                assert(slot.memory_at_start == memory_at_start(layers@, kb, i));
                assert(4 * (result.layers@[i].memory_at_start + layers@[i].param_total())
                    == result.peak_memory_bytes);
            }
        }
        result
    }
}

/// Layers start in order: none starts before an earlier one.
pub proof fn law_starts_in_order(layers: Seq<Layer>, i: int, j: int)
    requires
        0 <= i <= j,
    ensures
        start_cycle(layers, i) <= start_cycle(layers, j),
    decreases j - i,
{
    if i < j {
        law_starts_in_order(layers, i, j - 1);
    }
}

/// The next layer, or the end of the schedule, comes no later than the end of a
/// layer, and exactly there unless the layer is pipelined.
pub proof fn law_next_start(layers: Seq<Layer>, i: int)
    requires
        0 <= i,
    ensures
        start_cycle(layers, i + 1) <= start_cycle(layers, i) + layer_cycles(layers, i),
        !pipelined(layers, i) ==> start_cycle(layers, i + 1) == start_cycle(layers, i)
            + layer_cycles(layers, i),
        pipelined(layers, i) ==> start_cycle(layers, i + 1) == start_cycle(layers, i)
            + layer_cycles(layers, i) / 2,
{
}

/// The first layer starts at cycle zero with no memory held, and is not pipelined.
pub proof fn law_first_layer(layers: Seq<Layer>, bram_size_kb: nat)
    ensures
        start_cycle(layers, 0) == 0,
        memory_at_start(layers, bram_size_kb, 0) == 0,
        !pipelined(layers, 0),
{
}

/// A schedule whose first layer has weights takes at least one cycle.
pub proof fn law_weights_take_cycles(layers: Seq<Layer>)
    requires
        layers.len() > 0,
        layers[0].weight_total() > 0,
    ensures
        start_cycle(layers, layers.len() as int) > 0,
{
    let n = layers[0].weight_total();
    rounding::lemma_double_ordered(1, n);
    rounding::lemma_double_ordered(3, 3 * rounding::nearest_double(n));
    law_next_start(layers, 0);
    law_starts_in_order(layers, 1, layers.len() as int);
}

/// Fewer layers are pipelined than there are.
pub proof fn law_depth_below_length(layers: Seq<Layer>, n: int)
    requires
        0 < n,
    ensures
        pipelined_count(layers, n) <= n - 1,
    decreases n,
{
    reveal_with_fuel(pipelined_count, 2);
    if n > 1 {
        law_depth_below_length(layers, n - 1);
    }
}

/// The peak covers what is held once any layer is loaded.
pub proof fn law_peak_covers(layers: Seq<Layer>, bram_size_kb: nat, n: int, i: int)
    requires
        0 <= i < n,
    ensures
        memory_at_start(layers, bram_size_kb, i) + layers[i].param_total() <= peak_memory(
            layers,
            bram_size_kb,
            n,
        ),
    decreases n,
{
    if i < n - 1 {
        law_peak_covers(layers, bram_size_kb, n - 1, i);
    }
}

/// Making room does not add to the memory held.
pub proof fn law_unloading_frees(layers: Seq<Layer>, bram_size_kb: nat, i: int)
    ensures
        memory_at_start(layers, bram_size_kb, i) <= memory_before(layers, bram_size_kb, i),
{
    lemma_unloading_shrinks(layers, 0, i - 2, 2, memory_before(layers, bram_size_kb, i));
}

/// The parameters of the first `n` layers.
pub open spec fn params_of(layers: Seq<Layer>, n: int) -> nat
    decreases n,
{
    if n <= 0 {
        0
    } else {
        params_of(layers, n - 1) + layers[n - 1].param_total()
    }
}

/// Where all layers fit in memory together, none is unloaded: each starts with all
/// earlier ones held, and the peak is the parameters of all.
pub proof fn law_all_held_when_all_fit(layers: Seq<Layer>, bram_size_kb: nat, n: int)
    requires
        0 <= n,
        params_of(layers, n) <= bram_size_kb * 1024,
    ensures
        forall|i: int|
            0 <= i < n ==> #[trigger] memory_at_start(layers, bram_size_kb, i) == params_of(
                layers,
                i,
            ),
        memory_before(layers, bram_size_kb, n) == params_of(layers, n),
        peak_memory(layers, bram_size_kb, n) == params_of(layers, n),
    decreases n,
{
    if n > 0 {
        law_all_held_when_all_fit(layers, bram_size_kb, n - 1);
    }
}

/// What the places of a schedule hold, by the fields of the layers. A layer can
/// overlap exactly where its inputs are as many as the outputs of the one before it.
/// It takes a cycle for each weight there and one and a half elsewhere, and delays
/// the next layer by half of its cycles or all of them. While there is room, the
/// parameters of all earlier layers are held.
#[verifier::rlimit(60)]
pub proof fn law_slots_by_fields(layers: Seq<Layer>, bram_size_kb: nat)
    requires
        schedulable(layers, bram_size_kb),
        layers.len() <= usize::MAX,
    ensures
        places(layers, bram_size_kb).len() == layers.len(),
        forall|i: int|
            0 <= i < layers.len() ==> {
                let slot = #[trigger] places(layers, bram_size_kb)[i];
                let count = layers[i].weight_total() as int;
                &&& slot.layer_id == i
                &&& slot.start_cycle == start_cycle(layers, i)
                &&& slot.memory_at_start == memory_at_start(layers, bram_size_kb, i)
                &&& slot.end_cycle - slot.start_cycle == layer_cycles(layers, i)
                &&& slot.can_pipeline <==> i > 0 && layers[i - 1].output_channels
                    == layers[i].input_channels
                &&& 3 * count < 0x20_0000_0000_0000 ==> slot.end_cycle == slot.start_cycle + (
                if slot.can_pipeline {
                    count
                } else {
                    3 * count / 2
                })
            },
        layers.len() > 0 ==> {
            let last = places(layers, bram_size_kb).last();
            &&& places(layers, bram_size_kb).first().start_cycle == 0
            &&& places(layers, bram_size_kb).first().memory_at_start == 0
            &&& start_cycle(layers, layers.len() as int) == last.start_cycle + (
            if last.can_pipeline {
                (last.end_cycle - last.start_cycle) / 2
            } else {
                last.end_cycle - last.start_cycle
            })
        },
        forall|i: int, j: int|
            #![trigger places(layers, bram_size_kb)[i], places(layers, bram_size_kb)[j]]
            0 <= i && j == i + 1 && j < layers.len() ==> {
                let slot = places(layers, bram_size_kb)[i];
                let next = places(layers, bram_size_kb)[j];
                let held = slot.memory_at_start + layers[i].param_total();
                &&& next.start_cycle == slot.start_cycle + (if slot.can_pipeline {
                    (slot.end_cycle - slot.start_cycle) / 2
                } else {
                    slot.end_cycle - slot.start_cycle
                })
                &&& next.memory_at_start <= held
                &&& held + layers[j].param_total() <= bram_size_kb * 1024
                    ==> next.memory_at_start == held
                &&& j <= 2 ==> next.memory_at_start == held
            },
{
    let all = places(layers, bram_size_kb);
    assert forall|i: int| 0 <= i < layers.len() implies {
        let slot = #[trigger] all[i];
        let count = layers[i].weight_total() as int;
        &&& slot.layer_id == i
        &&& slot.start_cycle == start_cycle(layers, i)
        &&& slot.memory_at_start == memory_at_start(layers, bram_size_kb, i)
        &&& slot.end_cycle - slot.start_cycle == layer_cycles(layers, i)
        &&& slot.can_pipeline <==> i > 0 && layers[i - 1].output_channels
            == layers[i].input_channels
        &&& 3 * count < 0x20_0000_0000_0000 ==> slot.end_cycle == slot.start_cycle + (
        if slot.can_pipeline {
            count
        } else {
            3 * count / 2
        })
    } by {
        assert(layers[i].params_countable());
        law_unloading_frees(layers, bram_size_kb, i);
        rounding::law_three_halves(layers[i].weight_total());
    }
    if layers.len() > 0 {
        law_first_layer(layers, bram_size_kb);
        assert(all.last() == all[layers.len() - 1]);
        assert(all.first() == all[0]);
        law_next_start(layers, layers.len() - 1);
    }
    assert forall|i: int, j: int|
        #![trigger all[i], all[j]]
        0 <= i && j == i + 1 && j < layers.len() implies {
        let slot = all[i];
        let next = all[j];
        let held = slot.memory_at_start + layers[i].param_total();
        &&& next.start_cycle == slot.start_cycle + (if slot.can_pipeline {
            (slot.end_cycle - slot.start_cycle) / 2
        } else {
            slot.end_cycle - slot.start_cycle
        })
        &&& next.memory_at_start <= held
        &&& held + layers[j].param_total() <= bram_size_kb * 1024 ==> next.memory_at_start == held
        &&& j <= 2 ==> next.memory_at_start == held
    } by {
        law_next_start(layers, i);
        law_unloading_frees(layers, bram_size_kb, j);
    }
}

/// The pipelined layers are those whose places say so.
proof fn lemma_depth_counts(layers: Seq<Layer>, bram_size_kb: nat, n: int)
    requires
        0 <= n <= layers.len(),
    ensures
        pipelined_count(layers, n) == places(layers, bram_size_kb).take(n).filter(
            |slot: ScheduledLayer| slot.can_pipeline,
        ).len(),
    decreases n,
{
    reveal(Seq::filter);
    if n > 0 {
        let some = places(layers, bram_size_kb).take(n);
        assert(some.drop_last() =~= places(layers, bram_size_kb).take(n - 1));
        lemma_depth_counts(layers, bram_size_kb, n - 1);
    }
}

/// The peak is what is held once some layer is loaded.
pub proof fn law_peak_is_reached(layers: Seq<Layer>, bram_size_kb: nat, n: int) -> (i: int)
    requires
        0 < n,
    ensures
        0 <= i < n,
        memory_at_start(layers, bram_size_kb, i) + layers[i].param_total() == peak_memory(
            layers,
            bram_size_kb,
            n,
        ),
    decreases n,
{
    let last = memory_before(layers, bram_size_kb, n);
    if peak_memory(layers, bram_size_kb, n) == last {
        n - 1
    } else if n > 1 {
        law_peak_is_reached(layers, bram_size_kb, n - 1)
    } else {
        assert(peak_memory(layers, bram_size_kb, 0) == 0);
        n - 1
    }
}

/// The cycles of a layer in terms of its weights: cut off at what 64 bits hold, as
/// many as the nearest double-precision number to the count where the layer is
/// pipelined, and half again as many elsewhere.
pub proof fn law_cycles_of_layer(layers: Seq<Layer>, i: int)
    ensures
        i > 0 && layers[i - 1].output_channels == layers[i].input_channels ==> layer_cycles(
            layers,
            i,
        ) == vstd::math::min(
            rounding::round_to(0x20_0000_0000_0000, layers[i].weight_total(), 1) as int,
            0xFFFF_FFFF_FFFF_FFFF,
        ),
        i <= 0 || layers[i - 1].output_channels != layers[i].input_channels ==> layer_cycles(
            layers,
            i,
        ) == vstd::math::min(
            rounding::three_halves(layers[i].weight_total()) as int,
            0xFFFF_FFFF_FFFF_FFFF,
        ),
{
    rounding::law_three_halves(layers[i].weight_total());
}

/// Nothing is unloaded past the end, and pipelined layers are passed over.
proof fn lemma_pipelined_stay(
    layers: Seq<Layer>,
    from: int,
    upto: int,
    end: int,
    count: nat,
    memory: nat,
)
    requires
        from <= upto <= end,
        forall|j: int| from <= j < upto ==> #[trigger] pipelined(layers, j),
    ensures
        unloaded(layers, from, end, count, memory) == unloaded(layers, upto, end, count, memory),
    decreases upto - from,
{
    if from < upto {
        assert(pipelined(layers, from));
        lemma_pipelined_stay(layers, from + 1, upto, end, count, memory);
    }
}

/// Where a layer would not fit beside what is held before it and lies behind at most
/// two others, it starts with all of that held.
pub proof fn law_recent_layers_stay(layers: Seq<Layer>, bram_size_kb: nat, i: int)
    requires
        i <= 2,
    ensures
        memory_at_start(layers, bram_size_kb, i) == memory_before(layers, bram_size_kb, i),
{
}

/// Where a later layer would not fit beside what is held before it, the first layer
/// is unloaded; it alone, if all others that lie more than two back are pipelined.
pub proof fn law_first_layer_is_unloaded(layers: Seq<Layer>, bram_size_kb: nat, i: int)
    requires
        i >= 3,
        memory_before(layers, bram_size_kb, i) + layers[i].param_total() > bram_size_kb * 1024,
        forall|j: int| 1 <= j < i - 2 ==> #[trigger] pipelined(layers, j),
    ensures
        memory_at_start(layers, bram_size_kb, i) == vstd::math::max(
            memory_before(layers, bram_size_kb, i) - layers[0].param_total(),
            0,
        ),
{
    let held = memory_before(layers, bram_size_kb, i);
    let left = vstd::math::max(held - layers[0].param_total(), 0) as nat;
    assert(!pipelined(layers, 0));
    assert(unloaded(layers, 0, i - 2, 2, held) == unloaded(layers, 1, i - 2, 1, left));
    lemma_pipelined_stay(layers, 1, i - 2, i - 2, 1, left);
}

/// Where a later layer would not fit beside what is held before it, the first layer
/// and the next one that is not pipelined are unloaded, if that one lies more than
/// two back.
pub proof fn law_second_layer_is_unloaded(
    layers: Seq<Layer>,
    bram_size_kb: nat,
    i: int,
    second: int,
)
    requires
        1 <= second < i - 2,
        memory_before(layers, bram_size_kb, i) + layers[i].param_total() > bram_size_kb * 1024,
        !pipelined(layers, second),
        forall|j: int| 1 <= j < second ==> #[trigger] pipelined(layers, j),
    ensures
        memory_at_start(layers, bram_size_kb, i) == vstd::math::max(
            memory_before(layers, bram_size_kb, i) - layers[0].param_total()
                - layers[second].param_total(),
            0,
        ),
{
    let held = memory_before(layers, bram_size_kb, i);
    let left = vstd::math::max(held - layers[0].param_total(), 0) as nat;
    let rest = vstd::math::max(left - layers[second].param_total(), 0) as nat;
    assert(!pipelined(layers, 0));
    assert(unloaded(layers, 0, i - 2, 2, held) == unloaded(layers, 1, i - 2, 1, left));
    lemma_pipelined_stay(layers, 1, second, i - 2, 1, left);
    assert(unloaded(layers, second, i - 2, 1, left) == unloaded(
        layers,
        second + 1,
        i - 2,
        0,
        rest,
    ));
}

/// Where a layer fits beside what is held before it, nothing is unloaded.
pub proof fn law_nothing_unloaded_when_it_fits(layers: Seq<Layer>, bram_size_kb: nat, i: int)
    requires
        memory_before(layers, bram_size_kb, i) + layers[i].param_total() <= bram_size_kb * 1024,
    ensures
        memory_at_start(layers, bram_size_kb, i) == memory_before(layers, bram_size_kb, i),
{
}

/// A layer can overlap with the one before it exactly where there is one whose
/// outputs are as many as its own inputs.
pub proof fn law_overlap_needs_equal_channels(layers: Seq<Layer>, i: int)
    ensures
        i <= 0 ==> !pipelined(layers, i),
        i > 0 ==> (pipelined(layers, i) <==> layers[i - 1].output_channels
            == layers[i].input_channels),
{
}

/// What is held before a layer is what the one before it started with, and its
/// parameters.
pub proof fn law_loading_adds(layers: Seq<Layer>, bram_size_kb: nat, i: int)
    requires
        0 <= i,
    ensures
        memory_before(layers, bram_size_kb, 0) == 0,
        memory_before(layers, bram_size_kb, i + 1) == memory_at_start(layers, bram_size_kb, i)
            + layers[i].param_total(),
{
}

/// The parameters of leading layers are at most those of all.
proof fn lemma_params_grow(layers: Seq<Layer>, i: int, n: int)
    requires
        0 <= i <= n,
    ensures
        params_of(layers, i) <= params_of(layers, n),
    decreases n - i,
{
    if i < n {
        lemma_params_grow(layers, i, n - 1);
    }
}

/// What is held, its peak and the cycles stay within the parameters of the layers so
/// far.
proof fn lemma_bounded_by_params(layers: Seq<Layer>, bram_size_kb: nat, n: int)
    requires
        0 <= n,
        forall|j: int|
            0 <= j < n ==> 3 * (#[trigger] layers[j]).weight_total() < 0x20_0000_0000_0000,
    ensures
        memory_before(layers, bram_size_kb, n) <= params_of(layers, n),
        peak_memory(layers, bram_size_kb, n) <= params_of(layers, n),
        start_cycle(layers, n) <= 2 * params_of(layers, n),
    decreases n,
{
    if n > 0 {
        lemma_bounded_by_params(layers, bram_size_kb, n - 1);
        law_unloading_frees(layers, bram_size_kb, n - 1);
        rounding::law_three_halves(layers[n - 1].weight_total());
    }
}

/// Layers can be scheduled where four bytes for each of their parameters, and the
/// memory of the chip, stay within machine integers, and one and a half times the
/// weights of each layer is exact in double precision.
pub proof fn law_small_models_schedule(layers: Seq<Layer>, bram_size_kb: nat)
    requires
        bram_size_kb * 1024 <= usize::MAX,
        4 * params_of(layers, layers.len() as int) <= usize::MAX,
        forall|i: int|
            0 <= i < layers.len() ==> {
                &&& (#[trigger] layers[i]).params_countable()
                &&& 3 * layers[i].weight_total() < 0x20_0000_0000_0000
            },
    ensures
        schedulable(layers, bram_size_kb),
{
    let n = layers.len() as int;
    lemma_bounded_by_params(layers, bram_size_kb, n);
    assert forall|i: int| 0 <= i < n implies {
        &&& memory_before(layers, bram_size_kb, i) + (#[trigger] layers[i]).param_total()
            <= usize::MAX
        &&& start_cycle(layers, i) + layer_cycles(layers, i) <= u64::MAX
    } by {
        lemma_bounded_by_params(layers, bram_size_kb, i);
        lemma_params_grow(layers, i + 1, n);
        rounding::law_three_halves(layers[i].weight_total());
    }
}

} // verus!
