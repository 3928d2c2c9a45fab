//! The ring of rendered samples on their way to the stream.

use vstd::prelude::*;

use crate::arithmetic::{evaluates, natural, word, Arithmetic, Expr, Term, MINUS_ONE, ONE};

verus! {

/// The number of samples that are kept before they are streamed.
pub const BUFFER_REGION_SIZE: usize = 2048;

/// The number of samples that are smoothed where two chunks meet.
pub const DECLICK_SIZE: usize = 8;

/// The time constant of the smoothing: 0.023 seconds.
pub const SMOOTHING_SECONDS: u32 = 0x3cbc_6a7f;

/// The least word that is a number.
pub const LOWEST: u32 = 0xff7f_ffff;

/// `samples` are the first `n` of `signal`, limited to the range from -1 to 1.
pub open spec fn limited<A: Arithmetic>(
    ar: A,
    signal: Seq<u32>,
    n: int,
    samples: Seq<u32>,
) -> bool {
    &&& samples.len() == n
    &&& forall|i: int|
        0 <= i < n ==> evaluates(ar, word(signal[i]).clamp(MINUS_ONE, ONE), #[trigger] samples[i])
}

/// The region after samples were written from `pointer` on, round the ring.
pub open spec fn written(region: Seq<u32>, pointer: int, samples: Seq<u32>) -> Seq<u32>
    decreases samples.len(),
{
    if samples.len() == 0 {
        region
    } else {
        written(region, pointer, samples.drop_last()).update(
            (pointer + samples.len() - 1) % BUFFER_REGION_SIZE as int,
            samples.last(),
        )
    }
}

/// Where the smoothing of a chunk that starts at `pointer` begins.
pub open spec fn declick_start(pointer: int) -> int {
    (pointer + BUFFER_REGION_SIZE - DECLICK_SIZE / 2) % BUFFER_REGION_SIZE as int
}

/// How much of a new sample the smoothing lets through.
pub open spec fn coefficient(sample_rate: u32) -> Expr {
    word(MINUS_ONE).over(
        word(SMOOTHING_SECONDS).times(natural(sample_rate as int)).max(word(LOWEST)),
    ).exp()
}

/// A step from `held` towards `sample`.
pub open spec fn smooth(sample_rate: u32, held: u32, sample: u32) -> Expr {
    let c = coefficient(sample_rate);
    word(held).times(word(ONE).minus(c)).plus(word(sample).times(c))
}

/// Where the `k`th frame behind the start of the smoothing lies.
pub open spec fn declick_left(start: int, k: int) -> int {
    (start + 2 * k) % BUFFER_REGION_SIZE as int
}

/// Where the right sample of that frame lies.
pub open spec fn declick_right(start: int, k: int) -> int {
    (start + 2 * k + 1) % BUFFER_REGION_SIZE as int
}

/// The region after some frames behind the start were smoothed: on the left
/// stand the samples of `smoothed`, on the right the right sample of the start.
pub open spec fn declicked_frames(region: Seq<u32>, start: int, smoothed: Seq<u32>) -> Seq<u32>
    decreases smoothed.len(),
{
    if smoothed.len() == 0 {
        region
    } else {
        let k = smoothed.len() as int;
        declicked_frames(region, start, smoothed.drop_last()).update(
            declick_left(start, k),
            smoothed.last(),
        ).update(declick_right(start, k), region[start + 1])
    }
}

/// Each sample of `smoothed` is a step from the right sample of the start
/// towards the right sample of its own frame.
pub open spec fn smoothed_samples<A: Arithmetic>(
    ar: A,
    sample_rate: u32,
    region: Seq<u32>,
    start: int,
    smoothed: Seq<u32>,
) -> bool {
    forall|k: int|
        0 <= k < smoothed.len() ==> evaluates(
            ar,
            smooth(
                sample_rate,
                region[start + 1],
                declicked_frames(region, start, smoothed.take(k))[declick_right(start, k + 1)],
            ),
            #[trigger] smoothed[k],
        )
}

/// Whether smoothing the seam at `pointer` can take `before` to `after`.
pub open spec fn declicked<A: Arithmetic>(
    ar: A,
    sample_rate: u32,
    pointer: int,
    before: Seq<u32>,
    after: Seq<u32>,
) -> bool {
    let start = declick_start(pointer);
    exists|smoothed: Seq<u32>|
        {
            &&& smoothed.len() == DECLICK_SIZE / 2 - 1
            &&& #[trigger] smoothed_samples(ar, sample_rate, before, start, smoothed)
            &&& after == declicked_frames(before, start, smoothed)
        }
}

/// Writes the first `n` samples of a signal, limited, and moves the pointer on.
pub fn write_region<A: Arithmetic, const CHUNK: usize>(
    ar: &A,
    region: &mut [u32; BUFFER_REGION_SIZE],
    pointer: &mut usize,
    signal: &[u32; CHUNK],
    n: usize,
)
    requires
        n <= CHUNK,
        *old(pointer) < BUFFER_REGION_SIZE,
    ensures
        exists|samples: Seq<u32>|
            {
                &&& #[trigger] limited(*ar, signal@, n as int, samples)
                &&& final(region)@ == written(old(region)@, *old(pointer) as int, samples)
            },
        *final(pointer) == (*old(pointer) + n) % BUFFER_REGION_SIZE as int,
{
    let ghost region0 = region@;
    let ghost pointer0 = *pointer as int;
    let ghost mut samples: Seq<u32> = Seq::empty();
    for i in 0..n
        invariant
            n <= CHUNK,
            0 <= pointer0 < BUFFER_REGION_SIZE,
            *pointer == (pointer0 + i) % BUFFER_REGION_SIZE as int,
            limited(*ar, signal@, i as int, samples),
            region@ == written(region0, pointer0, samples),
    {
        let level: Term = Term::word(ar, signal[i]).clamp(ar, MINUS_ONE, ONE);
        region[*pointer] = level.word;
        *pointer = (*pointer + 1) % BUFFER_REGION_SIZE;
        proof {
            let longer = samples.push(level.word);
            assert(longer.drop_last() == samples);
            samples = longer;
        }
    }
}

/// Smooths the seam at `pointer`.
pub fn declick<A: Arithmetic>(
    ar: &A,
    sample_rate: u32,
    region: &mut [u32; BUFFER_REGION_SIZE],
    pointer: usize,
)
    requires
        pointer < BUFFER_REGION_SIZE,
        declick_start(pointer as int) + 1 < BUFFER_REGION_SIZE,
    ensures
        declicked(*ar, sample_rate, pointer as int, old(region)@, final(region)@),
{
    let coeff: Term = Term::word(ar, MINUS_ONE).over(
        ar,
        Term::word(ar, SMOOTHING_SECONDS).times(ar, Term::natural(ar, sample_rate as u64)).max(
            ar,
            Term::word(ar, LOWEST),
        ),
    ).exp(ar);
    let start: usize = if pointer >= DECLICK_SIZE / 2 {
        pointer - DECLICK_SIZE / 2
    } else {
        BUFFER_REGION_SIZE + pointer - DECLICK_SIZE / 2
    };
    let ghost region0 = region@;
    let held: u32 = region[start + 1];
    let ghost mut smoothed: Seq<u32> = Seq::empty();
    for k in 1..DECLICK_SIZE / 2
        invariant
            start == declick_start(pointer as int),
            start + 1 < BUFFER_REGION_SIZE,
            held == region0[start + 1],
            coeff.holds(*ar),
            coeff.expr@ == coefficient(sample_rate),
            smoothed.len() == k - 1,
            region@ == declicked_frames(region0, start as int, smoothed),
            smoothed_samples(*ar, sample_rate, region0, start as int, smoothed),
    {
        let left: usize = (start + k * 2) % BUFFER_REGION_SIZE;
        let right: usize = (start + k * 2 + 1) % BUFFER_REGION_SIZE;
        let step: Term = Term::word(ar, held).times(
            ar,
            Term::word(ar, ONE).minus(ar, coeff),
        ).plus(ar, Term::word(ar, region[right]).times(ar, coeff));
        region[left] = step.word;
        region[right] = held;
        proof {
            let longer = smoothed.push(step.word);
            assert(longer.drop_last() == smoothed);
            assert forall|j: int| 0 <= j < longer.len() implies evaluates(
                *ar,
                smooth(
                    sample_rate,
                    region0[start + 1],
                    declicked_frames(region0, start as int, longer.take(j))[declick_right(
                        start as int,
                        j + 1,
                    )],
                ),
                #[trigger] longer[j],
            ) by {
                assert(longer.take(j) == smoothed.take(j));
                if j == smoothed.len() {
                    assert(smoothed.take(j) == smoothed);
                }
            }
            smoothed = longer;
        }
    }
}

} // verus!
