//! A block delay line.
use std::collections::VecDeque;
use vstd::prelude::*;

verus! {

/// `count` copies of `silence`.
pub open spec fn silent_blocks<T>(silence: T, count: nat) -> Seq<T> {
    Seq::new(count, |i: int| silence)
}

/// One step of the delay line: `x` enters at the back and the block at the
/// front leaves as the output.
pub open spec fn delay_step<T>(queue: Seq<T>, x: T) -> (Seq<T>, T) {
    let q = queue.push(x);
    (q.drop_first(), q[0])
}

/// The outputs of successive steps fed with `inputs`, starting from `queue`.
pub open spec fn delay_outputs<T>(queue: Seq<T>, inputs: Seq<T>) -> Seq<T>
    decreases inputs.len(),
{
    if inputs.len() == 0 {
        Seq::empty()
    } else {
        let (q, y) = delay_step(queue, inputs[0]);
        seq![y] + delay_outputs(q, inputs.drop_first())
    }
}

/// The queue after `set_delay_units` moves the delay from `current` to
/// `target` blocks: new silence at the front, or the oldest blocks dropped.
pub open spec fn resized_queue<T>(queue: Seq<T>, silence: T, current: nat, target: nat) -> Seq<T> {
    if target > current {
        silent_blocks(silence, (target - current) as nat) + queue
    } else if target < current {
        queue.skip(current - target)
    } else {
        queue
    }
}

/// A node that delays the input signal by a specified number of audio blocks.
///
/// Each block is a value of type `T` (one audio unit); `silence` is the block
/// that the line is seeded with and that stands for a missing input.
pub struct DelayNode<T> {
    queue: VecDeque<T>,
    delay_units: usize,
    max_delay_units: usize,
    silence: T,
}

impl<T: Copy> DelayNode<T> {
    /// The blocks waiting in the line, oldest first.
    pub closed spec fn queue_view(&self) -> Seq<T> {
        self.queue@
    }

    /// The current delay in blocks.
    pub closed spec fn delay(&self) -> nat {
        self.delay_units as nat
    }

    /// The largest delay the line accepts.
    pub closed spec fn max_delay(&self) -> nat {
        self.max_delay_units as nat
    }

    /// The silent block.
    pub closed spec fn silence_block(&self) -> T {
        self.silence
    }

    /// The line holds exactly `delay` blocks, and `delay` is within the maximum.
    pub closed spec fn wf(&self) -> bool {
        &&& self.queue@.len() == self.delay_units
        &&& self.delay_units <= self.max_delay_units
    }

    /// What a well-formed line guarantees: it holds exactly `delay()` blocks,
    /// and the delay is within the maximum.
    pub proof fn lemma_wf_holds_delay(&self)
        requires
            self.wf(),
        ensures
            self.queue_view().len() == self.delay(),
            self.delay() <= self.max_delay(),
    {
    }

    /// Creates a new `DelayNode`.
    ///
    /// # Parameters
    /// - `max_delay_units`: The maximum delay buffer size in units.
    /// - `default_delay_units`: The initial delay in units (capped at the maximum).
    /// - `silence`: The silent block the line is seeded with.
    pub fn new(max_delay_units: usize, default_delay_units: usize, silence: T) -> (d: Self)
        requires
            max_delay_units < usize::MAX,
        ensures
            d.wf(),
            d.max_delay() == max_delay_units,
            d.delay() == if default_delay_units < max_delay_units {
                default_delay_units
            } else {
                max_delay_units
            },
            d.silence_block() == silence,
            d.queue_view() == silent_blocks(silence, d.delay()),
            d.queue_view().len() == d.delay(),
    {
        let delay_units = if default_delay_units < max_delay_units {
            default_delay_units
        } else {
            max_delay_units
        };
        let mut queue: VecDeque<T> = VecDeque::with_capacity(max_delay_units + 1);
        let mut i: usize = 0;
        while i < delay_units
            invariant
                i <= delay_units,
                queue@ == silent_blocks(silence, i as nat),
            decreases delay_units - i,
        {
            queue.push_back(silence);
            assert(queue@ =~= silent_blocks(silence, (i + 1) as nat));
            i = i + 1;
        }
        DelayNode { queue, delay_units, max_delay_units, silence }
    }

    /// Dynamically updates the delay time (capped at the maximum).
    ///
    /// If the new delay is larger than the current one, silent blocks are inserted.
    /// If it is smaller, old blocks are discarded.
    pub fn set_delay_units(&mut self, units: usize)
        requires
            old(self).wf(),
        ensures
            final(self).wf(),
            final(self).max_delay() == old(self).max_delay(),
            final(self).silence_block() == old(self).silence_block(),
            final(self).delay() == if units < old(self).max_delay() {
                units as nat
            } else {
                old(self).max_delay()
            },
            final(self).queue_view() == resized_queue(
                old(self).queue_view(),
                old(self).silence_block(),
                old(self).delay(),
                final(self).delay(),
            ),
            final(self).queue_view().len() == final(self).delay(),
            final(self).delay() <= old(self).delay() ==> forall|i: int|
                0 <= i < final(self).delay() ==> #[trigger] final(self).queue_view()[i] == old(self).queue_view()[i
                    + old(self).delay() - final(self).delay()],
            final(self).delay() > old(self).delay() ==> forall|i: int|
                0 <= i < final(self).delay() ==> #[trigger] final(self).queue_view()[i] == if i < final(self).delay()
                    - old(self).delay() {
                    old(self).silence_block()
                } else {
                    old(self).queue_view()[i - (final(self).delay() - old(self).delay())]
                },
    {
        proof {
            let t: nat = if units < self.max_delay_units {
                units as nat
            } else {
                self.max_delay_units as nat
            };
            lemma_resize_keeps_newest(self.queue@, self.silence, self.delay_units as nat, t);
        }
        let target_units = if units < self.max_delay_units {
            units
        } else {
            self.max_delay_units
        };
        let ghost q0 = self.queue@;
        if target_units > self.delay_units {
            let extra = target_units - self.delay_units;
            let mut i: usize = 0;
            while i < extra
                invariant
                    i <= extra,
                    self.max_delay_units == old(self).max_delay_units,
                    self.delay_units == old(self).delay_units,
                    self.silence == old(self).silence,
                    self.queue@ == silent_blocks(self.silence, i as nat) + q0,
                decreases extra - i,
            {
                self.queue.push_front(self.silence);
                assert(self.queue@ =~= silent_blocks(self.silence, (i + 1) as nat) + q0);
                i = i + 1;
            }
        } else if target_units < self.delay_units {
            let fewer = self.delay_units - target_units;
            let mut i: usize = 0;
            while i < fewer
                invariant
                    i <= fewer,
                    fewer <= q0.len(),
                    self.max_delay_units == old(self).max_delay_units,
                    self.delay_units == old(self).delay_units,
                    self.silence == old(self).silence,
                    self.queue@ == q0.skip(i as int),
                decreases fewer - i,
            {
                self.queue.pop_front();
                assert(self.queue@ =~= q0.skip(i + 1));
                i = i + 1;
            }
        }
        self.delay_units = target_units;
    }

    /// Pushes the input block (or silence when there is none) into the line
    /// and writes the oldest block to `output`.
    pub fn process(&mut self, input: Option<&T>, output: &mut T)
        requires
            old(self).wf(),
        ensures
            final(self).wf(),
            final(self).delay() == old(self).delay(),
            final(self).max_delay() == old(self).max_delay(),
            final(self).silence_block() == old(self).silence_block(),
            final(self).queue_view().len() == final(self).delay(),
            (final(self).queue_view(), *final(output)) == delay_step(
                old(self).queue_view(),
                match input {
                    Some(x) => *x,
                    None => old(self).silence_block(),
                },
            ),
    {
        match input {
            Some(in_unit) => self.queue.push_back(*in_unit),
            None => self.queue.push_back(self.silence),
        }
        match self.queue.pop_front() {
            Some(delayed_unit) => {
                *output = delayed_unit;
            },
            None => {
                *output = self.silence;
            },
        }
        assert(self.queue@ =~= old(self).queue@.push(
            match input {
                Some(x) => *x,
                None => self.silence,
            },
        ).drop_first());
    }
}

/// Law: a delay line that starts from `queue` outputs `queue` followed by its
/// inputs, so a fresh line of delay `d` outputs `d` silent blocks and then
/// each input `d` steps late.
pub proof fn lemma_delay_outputs<T>(queue: Seq<T>, inputs: Seq<T>)
    ensures
        delay_outputs(queue, inputs).len() == inputs.len(),
        forall|i: int| 0 <= i < inputs.len() ==> #[trigger] delay_outputs(queue, inputs)[i] == (queue + inputs)[i],
    decreases inputs.len(),
{
    if inputs.len() > 0 {
        let (q, y) = delay_step(queue, inputs[0]);
        let rest = inputs.drop_first();
        lemma_delay_outputs(q, rest);
        assert(q + rest =~= (queue + inputs).drop_first());
        assert(y == (queue + inputs)[0]);
        let out = delay_outputs(queue, inputs);
        assert(out == seq![y] + delay_outputs(q, rest));
        assert forall|i: int| 0 <= i < inputs.len() implies #[trigger] out[i] == (queue + inputs)[i] by {
            if i > 0 {
                assert(out[i] == delay_outputs(q, rest)[i - 1]);
                assert((q + rest)[i - 1] == (queue + inputs)[i]);
            }
        }
    }
}

/// Law: a fresh delay line of `d` blocks outputs silence for the first `d`
/// steps and then each input exactly `d` steps after it entered.
pub proof fn lemma_fresh_delay_line<T>(silence: T, d: nat, inputs: Seq<T>)
    ensures
        forall|i: int|
            0 <= i < inputs.len() ==> #[trigger] delay_outputs(silent_blocks(silence, d), inputs)[i] == if i < d {
                silence
            } else {
                inputs[i - d]
            },
{
    lemma_delay_outputs(silent_blocks(silence, d), inputs);
}

/// Law: after `set_delay_units` moves a line holding `current` blocks to a
/// delay of `target`, the line outputs its `target` pending blocks (new
/// silence first, or the newest `target` of the old ones) and then each
/// input exactly `target` steps after it entered.
pub proof fn lemma_resized_line<T>(queue: Seq<T>, silence: T, current: nat, target: nat, inputs: Seq<T>)
    requires
        queue.len() == current,
    ensures
        resized_queue(queue, silence, current, target).len() == target,
        forall|i: int|
            0 <= i < inputs.len() ==> #[trigger] delay_outputs(resized_queue(queue, silence, current, target), inputs)[i]
                == if i < target {
                resized_queue(queue, silence, current, target)[i]
            } else {
                inputs[i - target]
            },
{
    let q = resized_queue(queue, silence, current, target);
    assert(q.len() == target);
    lemma_delay_outputs(q, inputs);
}

/// Law: resizing a line that holds `current` pending blocks to `target`
/// blocks keeps the newest pending blocks in order. Shrinking drops only the
/// `current - target` oldest blocks; growing puts `target - current` silent
/// blocks in front of all the old ones. The line then holds `target` blocks.
pub proof fn lemma_resize_keeps_newest<T>(queue: Seq<T>, silence: T, current: nat, target: nat)
    requires
        queue.len() == current,
    ensures
        resized_queue(queue, silence, current, target).len() == target,
        target <= current ==> forall|i: int|
            0 <= i < target ==> #[trigger] resized_queue(queue, silence, current, target)[i] == queue[i + current
                - target],
        target > current ==> forall|i: int|
            0 <= i < target ==> #[trigger] resized_queue(queue, silence, current, target)[i] == if i < target
                - current {
                silence
            } else {
                queue[i - (target - current)]
            },
{
}

} // verus!
