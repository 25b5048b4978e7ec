//! The mix accumulator: 32-bit sums of 16-bit samples, and their reduction
//! to the 16-bit output block.

use vstd::prelude::*;

verus! {

/// Sum of an accumulator and a sample, held to the 32-bit range.
pub open spec fn sat_add(acc: i32, sample: i16) -> i32 {
    if acc + sample > i32::MAX {
        i32::MAX
    } else if acc + sample < i32::MIN {
        i32::MIN
    } else {
        (acc + sample) as i32
    }
}

/// An accumulator reduced to the 16-bit sample range.
pub open spec fn clamp16(v: i32) -> i16 {
    if v > i16::MAX {
        i16::MAX
    } else if v < i16::MIN {
        i16::MIN
    } else {
        v as i16
    }
}

/// `mix` with `samples` added in, sample `k` at position `at + k`.
pub open spec fn mix_add(mix: Seq<i32>, at: int, samples: Seq<i16>) -> Seq<i32> {
    Seq::new(
        mix.len(),
        |i: int|
            if at <= i < at + samples.len() {
                sat_add(mix[i], samples[i - at])
            } else {
                mix[i]
            },
    )
}

/// The output block for a mix: every accumulator clamped to 16 bits.
pub open spec fn clamp_all(mix: Seq<i32>) -> Seq<i16> {
    Seq::new(mix.len(), |i: int| clamp16(mix[i]))
}

/// A block of `len` silent accumulators.
pub open spec fn silence(len: nat) -> Seq<i32> {
    Seq::new(len, |i: int| 0i32)
}

/// Adds a sample to an accumulator without leaving the 32-bit range.
pub fn add_sample(acc: i32, sample: i16) -> (sum: i32)
    ensures
        sum == sat_add(acc, sample),
{
    let wide: i64 = acc as i64 + sample as i64;
    if wide > 0x7fff_ffff {
        0x7fff_ffff
    } else if wide < -0x8000_0000 {
        -0x8000_0000
    } else {
        wide as i32
    }
}

/// Reduces an accumulator to a 16-bit sample.
pub fn clamp_sample(v: i32) -> (sample: i16)
    ensures
        sample == clamp16(v),
{
    if v > 32767 {
        32767
    } else if v < -32768 {
        -32768
    } else {
        v as i16
    }
}

/// Adds `samples` into `mix` starting at position `at`.
pub fn accumulate(mix: &mut Vec<i32>, at: usize, samples: &[i16])
    requires
        at + samples@.len() <= old(mix)@.len(),
    ensures
        final(mix)@ == mix_add(old(mix)@, at as int, samples@),
{
    let n = samples.len();
    let total = mix.len();
    let mut i: usize = 0;
    while i < n
        invariant
            n == samples@.len(),
            at + n <= total,
            i <= n,
            mix@.len() == total,
            total == old(mix)@.len(),
            mix@ == mix_add(old(mix)@, at as int, samples@.take(i as int)),
        decreases n - i,
    {
        let sum = add_sample(mix[at + i], samples[i]);
        mix[at + i] = sum;
        i += 1;
    }
    assert(samples@.take(n as int) == samples@);
}

/// A fresh mix of `len` silent accumulators.
pub fn silent_mix(len: usize) -> (mix: Vec<i32>)
    ensures
        mix@ == silence(len as nat),
{
    let mut mix: Vec<i32> = Vec::new();
    let mut i: usize = 0;
    while i < len
        invariant
            i <= len,
            mix@ == silence(i as nat),
        decreases len - i,
    {
        mix.push(0);
        i += 1;
    }
    mix
}

/// Writes the mix to the output block, every accumulator clamped to 16 bits.
pub fn finalize(mix: &Vec<i32>, frames: &mut [i16])
    requires
        old(frames)@.len() == mix@.len(),
    ensures
        final(frames)@ == clamp_all(mix@),
{
    let n = mix.len();
    let mut i: usize = 0;
    while i < n
        invariant
            n == mix@.len(),
            frames@.len() == n,
            i <= n,
            forall|j: int| 0 <= j < i ==> frames@[j] == clamp16(mix@[j]),
        decreases n - i,
    {
        frames[i] = clamp_sample(mix[i]);
        i += 1;
    }
}

/// While the accumulators stay inside the 32-bit range, mixing is plain
/// addition: position `at + k` grows by sample `k` and no other position
/// changes. This is so whenever fewer than 65536 runs of samples have gone
/// into a mix that started silent.
pub proof fn lemma_mix_add_exact(mix: Seq<i32>, at: int, samples: Seq<i16>)
    requires
        mix_within(mix, 0x7fff_0000),
    ensures
        mix_add(mix, at, samples).len() == mix.len(),
        forall|i: int|
            0 <= i < mix.len() ==> #[trigger] mix_add(mix, at, samples)[i] == (if at <= i < at
                + samples.len() {
                mix[i] + samples[i - at]
            } else {
                mix[i] as int
            }),
{
}

/// Contributions of two peers may be added in either order: while the sums
/// stay inside the 32-bit range the mix does not depend on which peer was
/// served first.
pub proof fn lemma_mix_add_commutes(mix: Seq<i32>, at_a: int, a: Seq<i16>, at_b: int, b: Seq<i16>)
    requires
        forall|i: int| 0 <= i < mix.len() ==> -0x7ffe_0000 <= #[trigger] mix[i] <= 0x7ffe_0000,
    ensures
        mix_add(mix_add(mix, at_a, a), at_b, b) == mix_add(mix_add(mix, at_b, b), at_a, a),
{
    assert(mix_add(mix_add(mix, at_a, a), at_b, b) =~= mix_add(mix_add(mix, at_b, b), at_a, a));
}

/// Every accumulator of `mix` lies between `-bound` and `bound`.
pub open spec fn mix_within(mix: Seq<i32>, bound: int) -> bool {
    forall|i: int| 0 <= i < mix.len() ==> -bound <= #[trigger] mix[i] <= bound
}

/// Adding samples in two runs, one behind the other, is adding them in
/// one run.
pub proof fn lemma_mix_add_append(mix: Seq<i32>, at: int, first: Seq<i16>, second: Seq<i16>)
    ensures
        mix_add(mix_add(mix, at, first), at + first.len(), second) == mix_add(
            mix,
            at,
            first + second,
        ),
        mix_add(mix, at, Seq::<i16>::empty()) == mix,
{
    assert(mix_add(mix_add(mix, at, first), at + first.len(), second) =~= mix_add(
        mix,
        at,
        first + second,
    ));
    assert(mix_add(mix, at, Seq::<i16>::empty()) =~= mix);
}

/// Adding one run of samples moves no accumulator by more than the
/// magnitude of a sample.
pub proof fn lemma_mix_add_within(mix: Seq<i32>, at: int, samples: Seq<i16>, bound: int)
    requires
        mix_within(mix, bound),
        0 <= bound,
    ensures
        mix_within(mix_add(mix, at, samples), bound + 0x8000),
        mix_add(mix, at, samples).len() == mix.len(),
{
}

} // verus!
