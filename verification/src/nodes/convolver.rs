//! Layout and scheduling of the partitioned convolution.
//!
//! The impulse response (IR) is split into a head block, convolved directly
//! on the audio thread, and a run of tail partitions whose sizes grow
//! geometrically and which worker threads convolve by FFT. This module
//! computes that layout, the ring buffer capacities, which partitions are due
//! after each pull, and where a worker's result lands in the carry ring.
use crate::types::AUDIO_UNIT_SIZE;
use vstd::arithmetic::power2::{lemma2_to64, lemma_pow2_strictly_increases, lemma_pow2_unfold, pow2};
use vstd::bits::{lemma_usize_low_bits_mask_is_mod, low_bits_mask};
use vstd::prelude::*;

verus! {

/// Configuration for the convolver.
#[derive(Debug, Clone, Copy, PartialEq, Eq, Structural)]
pub struct ConvolverConfig {
    /// Whether the convolution should be performed in stereo.
    pub stereo: bool,
    /// The exponent for partitioning the Impulse Response (IR).
    /// Controls how the IR is divided into blocks for processing.
    pub growth_exponent: u32,
    /// The size of the first block (Block 0) in samples.
    pub block_0_size: usize,
}

impl Default for ConvolverConfig {
    fn default() -> (c: Self)
        ensures
            c.stereo,
            c.growth_exponent == 2,
            c.block_0_size == AUDIO_UNIT_SIZE * 4,
    {
        ConvolverConfig { stereo: true, growth_exponent: 2, block_0_size: AUDIO_UNIT_SIZE * 4 }
    }
}

/// One tail partition of the IR: `size` samples starting at sample `offset`.
#[derive(Debug, Clone, Copy, PartialEq, Eq, Structural)]
pub struct PartitionSpan {
    /// Length of the partition in samples.
    pub size: usize,
    /// Index of the partition's first IR sample.
    pub offset: usize,
}

/// The factor by which partition sizes grow: the growth exponent, at least 1.
pub open spec fn growth_factor(growth_exponent: u32) -> nat {
    if growth_exponent == 0 {
        1
    } else {
        growth_exponent as nat
    }
}

/// Tail partitions `(size, offset)` of an IR of `ir_len` samples, starting at
/// `offset` with partitions of `size` samples. After each partition the size
/// is multiplied by `growth` once the covered length reaches `size * growth`
/// plus one audio unit.
pub open spec fn layout_from(ir_len: nat, growth: nat, size: nat, offset: nat) -> Seq<(nat, nat)>
    decreases (if offset >= ir_len {
        0
    } else {
        ir_len - offset
    }),
{
    if offset >= ir_len || size == 0 {
        Seq::empty()
    } else {
        let next_offset = offset + size;
        let next_size = if next_offset >= size * growth + AUDIO_UNIT_SIZE {
            size * growth
        } else {
            size
        };
        seq![(size, offset)] + layout_from(ir_len, growth, next_size, next_offset)
    }
}

/// The tail partitions of an IR of `ir_len` samples with the given growth
/// exponent and head block size.
pub open spec fn partition_layout_spec(ir_len: nat, growth_exponent: u32, block_0_size: nat) -> Seq<(nat, nat)> {
    layout_from(
        ir_len,
        growth_factor(growth_exponent),
        (AUDIO_UNIT_SIZE * growth_exponent) as nat,
        block_0_size,
    )
}

/// The first partition size fits in `usize`, and where the IR reaches past
/// the head block, the layout loop terminates (its first partition is not
/// empty) and its sizes and offsets fit in `usize`.
pub open spec fn layout_in_range(ir_len: nat, growth_exponent: u32, block_0_size: nat) -> bool {
    let init = (AUDIO_UNIT_SIZE * growth_exponent) as nat;
    let top = if init > ir_len {
        init
    } else {
        ir_len
    };
    &&& init <= usize::MAX
    &&& (ir_len <= block_0_size || {
        &&& growth_exponent > 0
        &&& ir_len + top <= usize::MAX
        &&& top * growth_factor(growth_exponent) + AUDIO_UNIT_SIZE <= usize::MAX
    })
}

/// Computes the tail partitions of the IR, as `partition_layout_spec` states.
pub fn partition_layout(ir_len: usize, growth_exponent: u32, block_0_size: usize) -> (spans: Vec<PartitionSpan>)
    requires
        layout_in_range(ir_len as nat, growth_exponent, block_0_size as nat),
    ensures
        spans@.map_values(|p: PartitionSpan| (p.size as nat, p.offset as nat)) == partition_layout_spec(
            ir_len as nat,
            growth_exponent,
            block_0_size as nat,
        ),
{
    let growth: usize = if growth_exponent == 0 {
        1
    } else {
        growth_exponent as usize
    };
    let ghost g = growth_factor(growth_exponent);
    let ghost init = (AUDIO_UNIT_SIZE * growth_exponent) as nat;
    let ghost top: nat = if init > ir_len as nat {
        init
    } else {
        ir_len as nat
    };
    let ghost whole = partition_layout_spec(ir_len as nat, growth_exponent, block_0_size as nat);
    let mut blocks: Vec<PartitionSpan> = Vec::new();
    let mut offset = block_0_size;
    let mut current_size = AUDIO_UNIT_SIZE * (growth_exponent as usize);
    if offset >= ir_len {
        assert(whole =~= Seq::empty());
        assert(blocks@.map_values(|p: PartitionSpan| (p.size as nat, p.offset as nat)) =~= whole);
        return blocks;
    }
    while offset < ir_len
        invariant
            g == growth as nat,
            growth >= 1,
            growth_exponent > 0 || ir_len <= block_0_size,
            current_size > 0 || offset >= ir_len,
            current_size <= init || current_size <= offset,
            ir_len + top <= usize::MAX,
            top * g + AUDIO_UNIT_SIZE <= usize::MAX,
            top == if init > ir_len as nat { init } else { ir_len as nat },
            blocks@.map_values(|p: PartitionSpan| (p.size as nat, p.offset as nat)) + layout_from(
                ir_len as nat,
                g,
                current_size as nat,
                offset as nat,
            ) == whole,
        decreases (if offset > ir_len + top {
            0
        } else {
            ir_len + top - offset
        }),
    {
        let ghost rest = layout_from(ir_len as nat, g, current_size as nat, offset as nat);
        let ghost before = blocks@.map_values(|p: PartitionSpan| (p.size as nat, p.offset as nat));
        assert(current_size <= top);
        let len = current_size;
        blocks.push(PartitionSpan { size: len, offset });
        offset = offset + len;
        assert(current_size * growth <= top * g) by (nonlinear_arith)
            requires
                current_size <= top,
                g == growth as nat,
                growth >= 1,
        ;
        assert(current_size * growth >= current_size) by (nonlinear_arith)
            requires
                growth >= 1,
        ;
        if offset >= current_size * growth + AUDIO_UNIT_SIZE {
            current_size = current_size * growth;
        }
        assert(rest == seq![(len as nat, (offset - len) as nat)] + layout_from(
            ir_len as nat,
            g,
            current_size as nat,
            offset as nat,
        ));
        assert(blocks@.map_values(|p: PartitionSpan| (p.size as nat, p.offset as nat)) =~= before.push(
            (len as nat, (offset - len) as nat),
        ));
    }
    assert(layout_from(ir_len as nat, g, current_size as nat, offset as nat) =~= Seq::empty());
    assert(blocks@.map_values(|p: PartitionSpan| (p.size as nat, p.offset as nat)) =~= whole);
    blocks
}

/// Law: the tail partitions tile the IR from the end of the head block on:
/// the first starts right after the head block, each starts where the
/// previous one ends, each starts inside the IR, the last reaches its end,
/// and sizes never shrink.
pub proof fn lemma_layout_tiles(ir_len: nat, growth: nat, size: nat, offset: nat)
    requires
        growth >= 1,
        size > 0,
    ensures
        layout_from(ir_len, growth, size, offset).len() == 0 <==> offset >= ir_len,
        layout_from(ir_len, growth, size, offset).len() > 0 ==> layout_from(ir_len, growth, size, offset)[0]
            == (size, offset),
        forall|i: int|
            0 <= i < layout_from(ir_len, growth, size, offset).len() - 1 ==> (#[trigger] layout_from(
                ir_len,
                growth,
                size,
                offset,
            )[i + 1]).1 == layout_from(ir_len, growth, size, offset)[i].1 + layout_from(
                ir_len,
                growth,
                size,
                offset,
            )[i].0,
        forall|i: int|
            0 <= i < layout_from(ir_len, growth, size, offset).len() - 1 ==> (#[trigger] layout_from(
                ir_len,
                growth,
                size,
                offset,
            )[i + 1]).0 >= layout_from(ir_len, growth, size, offset)[i].0,
        forall|i: int|
            0 <= i < layout_from(ir_len, growth, size, offset).len() ==> (#[trigger] layout_from(
                ir_len,
                growth,
                size,
                offset,
            )[i]).1 < ir_len && layout_from(ir_len, growth, size, offset)[i].0 >= size,
        layout_from(ir_len, growth, size, offset).len() > 0 ==> layout_from(ir_len, growth, size, offset).last().1
            + layout_from(ir_len, growth, size, offset).last().0 >= ir_len,
    decreases (if offset >= ir_len {
        0
    } else {
        ir_len - offset
    }),
{
    if offset < ir_len {
        let next_offset = offset + size;
        let next_size = if next_offset >= size * growth + AUDIO_UNIT_SIZE {
            size * growth
        } else {
            size
        };
        assert(size * growth >= size) by (nonlinear_arith)
            requires
                growth >= 1,
        ;
        lemma_layout_tiles(ir_len, growth, next_size, next_offset);
        let rest = layout_from(ir_len, growth, next_size, next_offset);
        let l = layout_from(ir_len, growth, size, offset);
        assert(l == seq![(size, offset)] + rest);
        assert forall|i: int| 0 <= i < l.len() - 1 implies (#[trigger] l[i + 1]).1 == l[i].1 + l[i].0
            && l[i + 1].0 >= l[i].0 by {
            assert(l[i + 1] == rest[i]);
            if i > 0 {
                let k = i - 1;
                assert(l[i] == rest[k]);
                assert(rest[k + 1] == rest[i]);
            } else {
                assert(rest[0] == (next_size, next_offset));
            }
        }
        assert forall|i: int| 0 <= i < l.len() implies (#[trigger] l[i]).1 < ir_len && l[i].0 >= size by {
            if i > 0 {
                assert(l[i] == rest[i - 1]);
            }
        }
        if rest.len() > 0 {
            assert(l.last() == rest.last());
        }
    }
}

/// Law: partition sizes grow only when the worker has time for it. After
/// each partition the next one has the size multiplied by `growth` exactly
/// when it starts at least `size * growth + AUDIO_UNIT_SIZE` samples into
/// the IR, and keeps the size otherwise; so a partition whose size grew
/// starts at least `AUDIO_UNIT_SIZE` samples past its own size.
pub proof fn lemma_layout_growth_rule(ir_len: nat, growth: nat, size: nat, offset: nat)
    requires
        growth >= 1,
        size > 0,
    ensures
        forall|i: int|
            0 <= i < layout_from(ir_len, growth, size, offset).len() - 1 ==> (#[trigger] layout_from(
                ir_len,
                growth,
                size,
                offset,
            )[i + 1]).0 == if layout_from(ir_len, growth, size, offset)[i + 1].1 >= layout_from(
                ir_len,
                growth,
                size,
                offset,
            )[i].0 * growth + AUDIO_UNIT_SIZE {
                layout_from(ir_len, growth, size, offset)[i].0 * growth
            } else {
                layout_from(ir_len, growth, size, offset)[i].0
            },
        forall|i: int|
            0 <= i < layout_from(ir_len, growth, size, offset).len() - 1 && (#[trigger] layout_from(
                ir_len,
                growth,
                size,
                offset,
            )[i + 1]).0 != layout_from(ir_len, growth, size, offset)[i].0 ==> layout_from(
                ir_len,
                growth,
                size,
                offset,
            )[i + 1].1 >= layout_from(ir_len, growth, size, offset)[i + 1].0 + AUDIO_UNIT_SIZE,
    decreases (if offset >= ir_len {
        0
    } else {
        ir_len - offset
    }),
{
    if offset < ir_len {
        let next_offset = offset + size;
        let next_size = if next_offset >= size * growth + AUDIO_UNIT_SIZE {
            size * growth
        } else {
            size
        };
        assert(size * growth >= size) by (nonlinear_arith)
            requires
                growth >= 1,
        ;
        lemma_layout_growth_rule(ir_len, growth, next_size, next_offset);
        lemma_layout_tiles(ir_len, growth, next_size, next_offset);
        let rest = layout_from(ir_len, growth, next_size, next_offset);
        let l = layout_from(ir_len, growth, size, offset);
        assert(l == seq![(size, offset)] + rest);
        assert forall|i: int| 0 <= i < l.len() - 1 implies (#[trigger] l[i + 1]).0 == if l[i + 1].1 >= l[i].0
            * growth + AUDIO_UNIT_SIZE {
            l[i].0 * growth
        } else {
            l[i].0
        } by {
            assert(l[i + 1] == rest[i]);
            if i > 0 {
                let k = i - 1;
                assert(l[i] == rest[k]);
                assert(rest[k + 1] == rest[i]);
            } else {
                assert(rest[0] == (next_size, next_offset));
            }
        }
        assert forall|i: int| 0 <= i < l.len() - 1 && (#[trigger] l[i + 1]).0 != l[i].0 implies l[i + 1].1
            >= l[i + 1].0 + AUDIO_UNIT_SIZE by {
            assert(l[i + 1] == rest[i]);
            if i > 0 {
                let k = i - 1;
                assert(l[i] == rest[k]);
                assert(rest[k + 1] == rest[i]);
            } else {
                assert(rest[0] == (next_size, next_offset));
            }
        }
    }
}

/// Every partition of a layout that starts no earlier than its first size
/// starts no earlier than its own size: a partition's samples never lie ahead
/// of the input it needs.
proof fn lemma_layout_slack(ir_len: nat, growth: nat, size: nat, offset: nat)
    requires
        growth >= 1,
        size <= offset,
    ensures
        forall|i: int|
            0 <= i < layout_from(ir_len, growth, size, offset).len() ==> (#[trigger] layout_from(
                ir_len,
                growth,
                size,
                offset,
            )[i]).0 <= layout_from(ir_len, growth, size, offset)[i].1,
    decreases (if offset >= ir_len {
        0
    } else {
        ir_len - offset
    }),
{
    if offset < ir_len && size > 0 {
        let next_offset = offset + size;
        let next_size = if next_offset >= size * growth + AUDIO_UNIT_SIZE {
            size * growth
        } else {
            size
        };
        lemma_layout_slack(ir_len, growth, next_size, next_offset);
        let rest = layout_from(ir_len, growth, next_size, next_offset);
        let l = layout_from(ir_len, growth, size, offset);
        assert(l == seq![(size, offset)] + rest);
        assert forall|i: int| 0 <= i < l.len() implies (#[trigger] l[i]).0 <= l[i].1 by {
            if i > 0 {
                assert(l[i] == rest[i - 1]);
            }
        }
    }
}

/// Law: when the head block is at least as long as the first tail
/// partition, every tail partition starts at an IR offset no smaller than its
/// size. A partition's convolution is started once its input block is
/// complete, and its result is needed `offset - size` samples later, so a
/// worker that keeps up delivers in time (see
/// `lemma_timely_result_skips_nothing`).
pub proof fn lemma_partitions_leave_slack(ir_len: nat, growth_exponent: u32, block_0_size: nat)
    requires
        AUDIO_UNIT_SIZE * growth_exponent <= block_0_size,
    ensures
        forall|i: int|
            0 <= i < partition_layout_spec(ir_len, growth_exponent, block_0_size).len() ==> (
            #[trigger] partition_layout_spec(ir_len, growth_exponent, block_0_size)[i]).0
                <= partition_layout_spec(ir_len, growth_exponent, block_0_size)[i].1,
{
    lemma_layout_slack(
        ir_len,
        growth_factor(growth_exponent),
        (AUDIO_UNIT_SIZE * growth_exponent) as nat,
        block_0_size,
    );
}

/// The smallest power of two that is at least `x`, searched upwards from `p`.
pub open spec fn pow2_from(p: nat, x: nat) -> nat
    decreases (if p >= x || p == 0 {
        0
    } else {
        x - p
    }),
{
    if p >= x || p == 0 {
        p
    } else {
        pow2_from(2 * p, x)
    }
}

/// The smallest power of two that is at least `x` (1 for 0).
pub open spec fn pow2_ceil(x: nat) -> nat {
    pow2_from(1, x)
}

/// `p` is a power of two.
pub open spec fn is_pow2(p: nat) -> bool
    decreases p,
{
    if p == 1 {
        true
    } else if p < 2 || p % 2 != 0 {
        false
    } else {
        is_pow2(p / 2)
    }
}

/// What `pow2_ceil` is: a power of two, at least `x`, whose half is below `x`.
pub proof fn lemma_pow2_ceil(x: nat)
    ensures
        is_pow2(pow2_ceil(x)),
        pow2_ceil(x) >= x,
        pow2_ceil(x) == 1 || pow2_ceil(x) / 2 < x,
{
    lemma_pow2_from(1, x);
}

proof fn lemma_pow2_from(p: nat, x: nat)
    requires
        is_pow2(p),
        p == 1 || p / 2 < x,
    ensures
        is_pow2(pow2_from(p, x)),
        pow2_from(p, x) >= x,
        pow2_from(p, x) == 1 || pow2_from(p, x) / 2 < x,
    decreases (if p >= x || p == 0 {
        0
    } else {
        x - p
    }),
{
    if !(p >= x || p == 0) {
        assert(is_pow2(2 * p)) by {
            assert((2 * p) % 2 == 0);
            assert((2 * p) / 2 == p);
        }
        lemma_pow2_from(2 * p, x);
    }
}

/// The smallest power of two that is at least `x`, as `usize::next_power_of_two` returns it.
pub fn next_power_of_two(x: usize) -> (p: usize)
    requires
        x <= usize::MAX / 2 + 1,
    ensures
        p == pow2_ceil(x as nat),
{
    let mut p: usize = 1;
    while p < x
        invariant
            1 <= p,
            p == 1 || p / 2 < x,
            x <= usize::MAX / 2 + 1,
            pow2_from(p as nat, x as nat) == pow2_ceil(x as nat),
        decreases (if p >= x {
            0
        } else {
            x - p
        }),
    {
        p = p * 2;
    }
    p
}

/// The length of the carry ring: four times the smallest power of two that
/// holds the IR plus two of its largest partitions, and at least 65536.
pub open spec fn carry_capacity_spec(ir_len: nat, max_block_size: nat) -> nat {
    let c = pow2_ceil(ir_len + max_block_size * 2) * 4;
    if c < 65536 {
        65536
    } else {
        c
    }
}

/// The length of the input history ring: the smallest power of two that holds
/// the largest partition, and at least 65536.
pub open spec fn history_capacity_spec(max_block_size: nat) -> nat {
    let c = pow2_ceil(max_block_size);
    if c < 65536 {
        65536
    } else {
        c
    }
}

/// Length of the carry ring, as `carry_capacity_spec` states.
pub fn carry_capacity(ir_len: usize, max_block_size: usize) -> (c: usize)
    requires
        8 * (ir_len + max_block_size * 2) <= usize::MAX,
    ensures
        c == carry_capacity_spec(ir_len as nat, max_block_size as nat),
        is_pow2(c as nat),
{
    let p = next_power_of_two(ir_len + max_block_size * 2);
    proof {
        lemma_pow2_ceil((ir_len + max_block_size * 2) as nat);
        lemma_pow2_times_four(p as nat);
        lemma_65536_is_pow2();
    }
    let c = p * 4;
    if c < 65536 {
        65536
    } else {
        c
    }
}

/// Length of the input history ring, as `history_capacity_spec` states.
pub fn history_capacity(max_block_size: usize) -> (c: usize)
    requires
        max_block_size <= usize::MAX / 2 + 1,
    ensures
        c == history_capacity_spec(max_block_size as nat),
        is_pow2(c as nat),
{
    let p = next_power_of_two(max_block_size);
    proof {
        lemma_pow2_ceil(max_block_size as nat);
        lemma_65536_is_pow2();
    }
    if p < 65536 {
        65536
    } else {
        p
    }
}

proof fn lemma_pow2_times_four(p: nat)
    requires
        is_pow2(p),
    ensures
        is_pow2(p * 4),
{
    assert((p * 2) % 2 == 0 && (p * 2) / 2 == p);
    assert(p * 2 >= 2);
    assert(is_pow2(p * 2));
    assert((p * 4) % 2 == 0 && (p * 4) / 2 == p * 2);
    assert(is_pow2(p * 4));
}

proof fn lemma_65536_is_pow2()
    ensures
        is_pow2(65536),
{
    reveal_with_fuel(is_pow2, 17);
}

/// The exponent of a power of two.
spec fn log2_exact(p: nat) -> nat
    decreases p,
{
    if p <= 1 {
        0
    } else {
        1 + log2_exact(p / 2)
    }
}

proof fn lemma_pow2_log(p: nat)
    requires
        is_pow2(p),
    ensures
        pow2(log2_exact(p)) == p,
    decreases p,
{
    if p == 1 {
        lemma2_to64();
    } else {
        lemma_pow2_log(p / 2);
        lemma_pow2_unfold(log2_exact(p));
    }
}

/// Position `pos` in a ring of `capacity` samples, a power of two: the low
/// bits of `pos`, which is `pos` modulo the capacity.
pub fn ring_index(pos: usize, capacity: usize) -> (r: usize)
    requires
        is_pow2(capacity as nat),
    ensures
        r == pos % capacity,
{
    proof {
        let n = log2_exact(capacity as nat);
        lemma_pow2_log(capacity as nat);
        lemma2_to64();
        if n >= usize::BITS {
            if n > usize::BITS {
                lemma_pow2_strictly_increases(usize::BITS as nat, n);
            }
            assert(false);
        }
        lemma_usize_low_bits_mask_is_mod(pos, n);
        assert(low_bits_mask(n) == capacity - 1);
    }
    pos & (capacity - 1)
}

/// Samples `offset..offset + len` of channel `ch` of the IR, padded with
/// `zero` past its end.
pub fn take_slice_padded<T: Copy>(ir: &[[T; 2]], offset: usize, len: usize, ch: usize, zero: T) -> (res: Vec<T>)
    requires
        ch < 2,
    ensures
        res@.len() == len,
        forall|i: int|
            0 <= i < len ==> #[trigger] res@[i] == if offset + i < ir@.len() {
                ir@[offset + i][ch as int]
            } else {
                zero
            },
{
    let take: usize = if offset < ir.len() {
        if ir.len() - offset < len {
            ir.len() - offset
        } else {
            len
        }
    } else {
        0
    };
    let mut res: Vec<T> = Vec::new();
    let mut i: usize = 0;
    while i < len
        invariant
            i <= len,
            ch < 2,
            ir@.len() <= usize::MAX,
            take <= len,
            take == 0 || offset + take <= ir@.len(),
            offset < ir@.len() ==> take == (if ir@.len() - offset < len { ir@.len() - offset } else { len as int }),
            offset >= ir@.len() ==> take == 0,
            res@.len() == i,
            forall|j: int|
                0 <= j < i ==> #[trigger] res@[j] == if offset + j < ir@.len() {
                    ir@[offset + j][ch as int]
                } else {
                    zero
                },
        decreases len - i,
    {
        if i < take {
            let frame = ir[offset + i];
            res.push(frame[ch]);
        } else {
            res.push(zero);
        }
        i = i + 1;
    }
    res
}

/// A partition of `size` samples is due once the carry ring's read pointer
/// reaches `carry_read_ptr + AUDIO_UNIT_SIZE`: when its size divides that
/// position (a size of 0 divides only 0).
pub open spec fn partition_due(carry_read_ptr: nat, size: nat) -> bool {
    let end = (carry_read_ptr + AUDIO_UNIT_SIZE) as nat;
    if size == 0 {
        end == 0
    } else {
        end % size == 0
    }
}

/// Whether a partition of `size` samples is due, as `partition_due` states;
/// it allocates nothing, so the audio thread can ask it on every pull.
pub fn is_due(carry_read_ptr: usize, size: usize) -> (r: bool)
    requires
        carry_read_ptr + AUDIO_UNIT_SIZE <= usize::MAX,
    ensures
        r == partition_due(carry_read_ptr as nat, size as nat),
{
    (carry_read_ptr + AUDIO_UNIT_SIZE).is_multiple_of(size)
}

/// Indices of the partitions whose worker task is due once the carry ring's
/// read pointer reaches `carry_read_ptr + AUDIO_UNIT_SIZE`: those whose size
/// divides it (a size of 0 divides only 0).
pub open spec fn due_partitions(carry_read_ptr: nat, spans: Seq<PartitionSpan>) -> Seq<usize>
    decreases spans.len(),
{
    if spans.len() == 0 {
        Seq::empty()
    } else {
        let prev = due_partitions(carry_read_ptr, spans.drop_last());
        if partition_due(carry_read_ptr, spans.last().size as nat) {
            prev.push((spans.len() - 1) as usize)
        } else {
            prev
        }
    }
}

/// Law: a partition is due exactly when its size is not zero and divides
/// the read pointer's next position `carry_read_ptr + AUDIO_UNIT_SIZE`.
pub proof fn lemma_partition_due_is_divisibility(carry_read_ptr: nat, size: nat)
    ensures
        partition_due(carry_read_ptr, size) <==> size > 0 && exists|q: nat| #[trigger] (q * size)
            == carry_read_ptr + AUDIO_UNIT_SIZE,
{
    let end = carry_read_ptr + AUDIO_UNIT_SIZE;
    if size > 0 {
        if partition_due(carry_read_ptr, size) {
            let q = (end / (size as int)) as nat;
            assert(q * size == end) by (nonlinear_arith)
                requires
                    size > 0,
                    end >= 0,
                    end % (size as int) == 0,
                    q == end / (size as int),
            ;
        }
        if exists|q: nat| #[trigger] (q * size) == end {
            let q = choose|q: nat| #[trigger] (q * size) == end;
            vstd::arithmetic::div_mod::lemma_mod_multiples_basic(q as int, size as int);
        }
    }
}

/// Law: the due list of the partitions of a vector holds, in increasing
/// order and once each, exactly the indices of the partitions that are due.
pub proof fn lemma_due_partitions_are_the_due_indices(carry_read_ptr: nat, spans: Seq<PartitionSpan>)
    requires
        spans.len() <= usize::MAX,
    ensures
        forall|i: int|
            0 <= i < due_partitions(carry_read_ptr, spans).len() ==> (#[trigger] due_partitions(
                carry_read_ptr,
                spans,
            )[i]) < spans.len() && partition_due(
                carry_read_ptr,
                spans[due_partitions(carry_read_ptr, spans)[i] as int].size as nat,
            ),
        forall|i: int, j: int|
            0 <= i < j < due_partitions(carry_read_ptr, spans).len() ==> (#[trigger] due_partitions(
                carry_read_ptr,
                spans,
            )[i]) < (#[trigger] due_partitions(carry_read_ptr, spans)[j]),
        forall|k: int|
            0 <= k < spans.len() && partition_due(carry_read_ptr, (#[trigger] spans[k]).size as nat)
                ==> due_partitions(carry_read_ptr, spans).contains(k as usize),
    decreases spans.len(),
{
    if spans.len() > 0 {
        let init = spans.drop_last();
        lemma_due_partitions_are_the_due_indices(carry_read_ptr, init);
        let prev = due_partitions(carry_read_ptr, init);
        let all = due_partitions(carry_read_ptr, spans);
        let last = (spans.len() - 1) as usize;
        assert forall|i: int| 0 <= i < prev.len() implies (#[trigger] prev[i]) < last by {
            assert(prev[i] < init.len());
        }
        assert forall|i: int| 0 <= i < all.len() implies (#[trigger] all[i]) < spans.len() && partition_due(
            carry_read_ptr,
            spans[all[i] as int].size as nat,
        ) by {
            if i < prev.len() {
                assert(all[i] == prev[i]);
                assert(spans[prev[i] as int] == init[prev[i] as int]);
            }
        }
        assert forall|i: int, j: int| 0 <= i < j < all.len() implies (#[trigger] all[i]) < (#[trigger] all[j]) by {
            if j < prev.len() {
                assert(all[i] == prev[i] && all[j] == prev[j]);
            } else {
                assert(all[i] == prev[i]);
            }
        }
        assert forall|k: int|
            0 <= k < spans.len() && partition_due(carry_read_ptr, (#[trigger] spans[k]).size as nat) implies all.contains(
            k as usize,
        ) by {
            if k < spans.len() - 1 {
                assert(init[k] == spans[k]);
                let p = choose|p: int| 0 <= p < prev.len() && prev[p] == k as usize;
                assert(all[p] == prev[p]);
            } else {
                assert(all[all.len() - 1] == last);
            }
        }
    }
}

/// The partitions whose worker task is due after a pull, as `due_partitions` states.
pub fn due_partition_indices(carry_read_ptr: usize, spans: &Vec<PartitionSpan>) -> (r: Vec<usize>)
    requires
        carry_read_ptr + AUDIO_UNIT_SIZE <= usize::MAX,
    ensures
        r@ == due_partitions(carry_read_ptr as nat, spans@),
{
    let mut r: Vec<usize> = Vec::new();
    let mut idx: usize = 0;
    while idx < spans.len()
        invariant
            idx <= spans@.len(),
            carry_read_ptr + AUDIO_UNIT_SIZE <= usize::MAX,
            r@ == due_partitions(carry_read_ptr as nat, spans@.take(idx as int)),
        decreases spans@.len() - idx,
    {
        let size = spans[idx].size;
        assert(spans@.take(idx + 1).drop_last() =~= spans@.take(idx as int));
        assert(spans@.take(idx + 1).last() == spans@[idx as int]);
        if is_due(carry_read_ptr, size) {
            r.push(idx);
        }
        idx = idx + 1;
    }
    assert(spans@.take(spans@.len() as int) =~= spans@);
    r
}

/// Where a worker adds the result of a partition convolution into the carry
/// ring, unwrapped past the ring's end: the first sample's position
/// `out_base`, and how many leading samples it skips because the audio thread
/// has already read past them.
pub open spec fn carry_write_window_spec(
    task_carry_ptr: nat,
    current_ptr: nat,
    capacity: nat,
    block_offset: nat,
    block_size: nat,
) -> (nat, nat) {
    let current_real = if current_ptr < task_carry_ptr {
        current_ptr + capacity
    } else {
        current_ptr
    };
    let base = task_carry_ptr + AUDIO_UNIT_SIZE + block_offset;
    let out_base: nat = if base > block_size {
        (base - block_size) as nat
    } else {
        0
    };
    let safe = current_real + AUDIO_UNIT_SIZE;
    let skip: nat = if safe > out_base {
        (safe - out_base) as nat
    } else {
        0
    };
    (out_base, skip)
}

/// The carry ring window of a worker's result, as `carry_write_window_spec` states.
pub fn carry_write_window(
    task_carry_ptr: usize,
    current_ptr: usize,
    capacity: usize,
    block_offset: usize,
    block_size: usize,
) -> (r: (usize, usize))
    requires
        current_ptr + capacity + AUDIO_UNIT_SIZE <= usize::MAX,
        task_carry_ptr + AUDIO_UNIT_SIZE + block_offset <= usize::MAX,
    ensures
        (r.0 as nat, r.1 as nat) == carry_write_window_spec(
            task_carry_ptr as nat,
            current_ptr as nat,
            capacity as nat,
            block_offset as nat,
            block_size as nat,
        ),
{
    let current_real = if current_ptr < task_carry_ptr {
        current_ptr + capacity
    } else {
        current_ptr
    };
    let out_base_real = (task_carry_ptr + AUDIO_UNIT_SIZE + block_offset).saturating_sub(block_size);
    let safe_current_real = current_real + AUDIO_UNIT_SIZE;
    let skip = safe_current_real.saturating_sub(out_base_real);
    (out_base_real, skip)
}

/// Law: a worker whose result arrives before the audio thread's read
/// pointer has moved more than `block_offset - block_size` samples past the
/// pointer at which the task was sent skips no sample of it, and the result
/// lands right after the block that follows the task.
pub proof fn lemma_timely_result_skips_nothing(
    task_carry_ptr: nat,
    current_ptr: nat,
    capacity: nat,
    block_offset: nat,
    block_size: nat,
)
    requires
        block_size <= block_offset,
        (if current_ptr < task_carry_ptr {
            current_ptr + capacity
        } else {
            current_ptr
        }) <= task_carry_ptr + (block_offset - block_size),
    ensures
        carry_write_window_spec(task_carry_ptr, current_ptr, capacity, block_offset, block_size).0
            == task_carry_ptr + AUDIO_UNIT_SIZE + (block_offset - block_size),
        carry_write_window_spec(task_carry_ptr, current_ptr, capacity, block_offset, block_size).1 == 0,
{
}

/// A worker drops the task it has just received, instead of convolving it,
/// when more than 8 tasks still wait behind it, or more than 2 once the
/// queue is over half full: the audio thread has moved on and the result
/// would land too late.
pub open spec fn task_is_stale(queue_len: nat, max_queue_len: nat) -> bool {
    queue_len > 8 || (queue_len > 2 && queue_len > max_queue_len / 2)
}

/// Whether a worker drops its task, as `task_is_stale` states.
pub fn should_drop_task(queue_len: usize, max_queue_len: usize) -> (r: bool)
    ensures
        r == task_is_stale(queue_len as nat, max_queue_len as nat),
{
    let max_queue_age: usize = if queue_len > max_queue_len / 2 {
        2
    } else {
        8
    };
    queue_len > max_queue_age
}

/// Whether `partition_layout` can run on these inputs: the loop terminates
/// and every size and offset it computes fits in `usize`.
pub fn layout_fits(ir_len: usize, growth_exponent: u32, block_0_size: usize) -> (r: bool)
    ensures
        r == layout_in_range(ir_len as nat, growth_exponent, block_0_size as nat),
{
    let init: u128 = 64 * (growth_exponent as u128);
    if init > usize::MAX as u128 {
        return false;
    }
    if ir_len <= block_0_size {
        return true;
    }
    if growth_exponent == 0 {
        return false;
    }
    let g: u128 = if growth_exponent == 0 {
        1
    } else {
        growth_exponent as u128
    };
    let len: u128 = ir_len as u128;
    let top: u128 = if init > len {
        init
    } else {
        len
    };
    assert(top <= 0xFFFF_FFFF_FFFF_FFFF * 64);
    assert(top * g <= 0xFFFF_FFFF_FFFF_FFFF * 64 * 0xFFFF_FFFF) by (nonlinear_arith)
        requires
            top <= 0xFFFF_FFFF_FFFF_FFFF * 64,
            g <= 0xFFFF_FFFF,
    ;
    len + top <= usize::MAX as u128 && top * g + 64 <= usize::MAX as u128
}

} // verus!
