//! What the effects, the mix and the region are in exact numbers.

use vstd::prelude::*;

use crate::arithmetic::{
    counts, evaluates, natural, word, Arithmetic, Expr, HALF, MINUS_ONE, ONE, SIXTY_FOUR, TWO,
    ZERO,
};
use crate::effect::{
    clip_sample, delay_sample, delayed, echo, effect_answers, fresh_effect, line_length, pan_left,
    pan_right, pointer_after, recorded, EffectDefinition, EffectView, ONE_SIXTY_FOURTH,
};
use crate::exact::{fair, limit, stands_for, value, Reading};
use crate::laws::{law_each_sample_heard_once, lemma_recorded_len};
use crate::mixing::{levels, mixed, sounds_after, total, Sound};
use crate::region::{
    coefficient, declick_start, declicked, declicked_frames, limited, smooth, smoothed_samples,
    DECLICK_SIZE, LOWEST, SMOOTHING_SECONDS,
};
use crate::render::{blend, blended, through};

verus! {

proof fn lemma_product(x: real, w: real, n: real)
    requires
        w == n,
    ensures
        x * w == n * x,
        w * x == n * x,
{
    assert(x * w == n * x) by (nonlinear_arith)
        requires
            w == n,
    ;
}

// The mix

/// What a sound adds `i` samples from now: its sample as many places further, or
/// nothing behind its end.
pub open spec fn heard_of(m: Reading, sound: Sound, i: int) -> real {
    if sound.position + i < sound.sample.len() {
        (m.word)(sound.sample[sound.position + i])
    } else {
        0 as real
    }
}

/// The sum of what all sounds add `i` samples from now.
pub open spec fn heard_together(m: Reading, sounds: Seq<Sound>, i: int) -> real {
    sounds.fold_left(0 as real, |sum: real, sound: Sound| sum + heard_of(m, sound, i))
}

/// Each mixed sample is the sum over all sounds, however many there are: each
/// adds its own sample once. Behind the samples asked for there is silence.
pub proof fn law_mix_is_the_sum<A: Arithmetic>(
    ar: A,
    sounds: Seq<Sound>,
    n: int,
    signal: Seq<u32>,
    i: int,
)
    requires
        mixed(ar, sounds, n, signal),
        0 <= i < signal.len(),
    ensures
        i < n ==> stands_for(ar, signal[i], |m: Reading| heard_together(m, sounds, i)),
        i >= n ==> signal[i] == ZERO,
{
    if i < n {
        let e = total(levels(sounds_after(sounds, i as nat)));
        assert(evaluates(ar, e, signal[i]));
        assert forall|m: Reading| fair(m) implies #[trigger] value(m, e) == heard_together(
            m,
            sounds,
            i,
        ) by {
            law_each_sample_heard_once(sounds, i as nat);
            lemma_total_of_levels(m, sounds, i);
        }
    }
}

/// The formula for the sum, read exactly, is the sum.
proof fn lemma_total_of_levels(m: Reading, sounds: Seq<Sound>, i: int)
    requires
        fair(m),
    ensures
        value(
            m,
            total(
                sounds.filter(|s: Sound| s.position + i < s.sample.len()).map_values(
                    |s: Sound| s.sample[s.position + i],
                ),
            ),
        ) == heard_together(m, sounds, i),
    decreases sounds.len(),
{
    reveal(Seq::filter);
    reveal_with_fuel(value, 2);
    let reaches = |s: Sound| s.position + i < s.sample.len();
    let sample = |s: Sound| s.sample[s.position + i];
    let all = sounds.filter(reaches).map_values(sample);
    if sounds.len() == 0 {
        assert(all == Seq::<u32>::empty());
    } else {
        let shorter = sounds.drop_last();
        lemma_total_of_levels(m, shorter, i);
        let before = shorter.filter(reaches).map_values(sample);
        if reaches(sounds.last()) {
            assert(all == before.push(sample(sounds.last())));
            assert(all.drop_last() == before);
        } else {
            assert(all == before);
        }
    }
}

/// One sound more adds exactly its own sample to each mixed sample, whatever
/// else sounds, and no sound at all is silence.
pub proof fn law_one_more_sound_adds_itself<A: Arithmetic>(
    ar: A,
    sounds: Seq<Sound>,
    sound: Sound,
    n: int,
    without: Seq<u32>,
    with: Seq<u32>,
    i: int,
)
    requires
        mixed(ar, sounds, n, without),
        mixed(ar, sounds.push(sound), n, with),
        0 <= i < n,
        n <= without.len(),
        n <= with.len(),
    ensures
        exists|v: spec_fn(Reading) -> real, w: spec_fn(Reading) -> real|
            {
                &&& #[trigger] stands_for(ar, without[i], v)
                &&& #[trigger] stands_for(ar, with[i], w)
                &&& forall|m: Reading|
                    fair(m) ==> #[trigger] w(m) == v(m) + heard_of(m, sound, i)
                &&& sounds.len() == 0 ==> forall|m: Reading| fair(m) ==> #[trigger] v(m) == 0 as real
            },
{
    let more = sounds.push(sound);
    let v = |m: Reading| heard_together(m, sounds, i);
    let w = |m: Reading| heard_together(m, more, i);
    law_mix_is_the_sum(ar, sounds, n, without, i);
    law_mix_is_the_sum(ar, more, n, with, i);
    assert(stands_for(ar, without[i], v));
    assert(stands_for(ar, with[i], w));
    assert forall|m: Reading| fair(m) implies #[trigger] w(m) == v(m) + heard_of(m, sound, i) by {
        assert(more.drop_last() == sounds);
    }
}

// The delay

/// The whole number `t` was counted from a formula that, read exactly, is `v`.
pub open spec fn counted_from<A: Arithmetic>(
    ar: A,
    t: usize,
    v: spec_fn(Reading) -> real,
) -> bool {
    exists|e: Expr|
        #[trigger] counts(ar, e, t) && forall|m: Reading| fair(m) ==> #[trigger] value(m, e) == v(m)
}

/// The loop of a delay of `t` frames of two samples: as many samples, but at
/// least 2 and at most 65536.
pub open spec fn is_loop(t: usize, n: int) -> bool {
    &&& t == 0 ==> n == 2
    &&& 0 < t <= 32768 ==> n == 2 * t
    &&& t > 32768 ==> n == 65536
}

/// What a delay that has a loop of `n` samples repeats with sample `i`: what it
/// gave `n - 1` samples before, or what its buffer holds from earlier.
pub open spec fn repeated(before: EffectView, n: int, out: Seq<u32>, i: int) -> u32 {
    if i >= n || (i == n - 1 && before.pointer < n) {
        out[i - (n - 1)]
    } else {
        before.buffer[(before.pointer + i + 1) % n]
    }
}

/// Where a delay with a loop of `n` samples puts sample `j`.
pub open spec fn put(before: EffectView, n: int, j: int) -> int {
    if j == 0 {
        before.pointer
    } else {
        (before.pointer + j) % n
    }
}

/// Sample `j` is the last of a chunk that is put to its place.
pub open spec fn put_last(before: EffectView, n: int, out: Seq<u32>, j: int) -> bool {
    &&& 0 <= j < out.len()
    &&& forall|k: int| j < k < out.len() ==> #[trigger] put(before, n, k) != put(before, n, j)
}

/// No sample of a chunk is put to the place `q` of the buffer.
pub open spec fn put_nowhere(before: EffectView, n: int, out: Seq<u32>, q: int) -> bool {
    &&& 0 <= q < before.buffer.len()
    &&& forall|k: int| 0 <= k < out.len() ==> #[trigger] put(before, n, k) != q
}

/// What a delay does to a chunk, with a loop of `n` samples: each sample is the
/// input plus what is repeated, at the volume; what is given is kept in the
/// buffer, round the loop, and the rest of the buffer is left alone.
pub open spec fn repeats<A: Arithmetic>(
    ar: A,
    n: int,
    before: EffectView,
    input: Seq<u32>,
    out: Seq<u32>,
    after: EffectView,
) -> bool {
    &&& out.len() == input.len()
    &&& forall|i: int|
        0 <= i < out.len() ==> stands_for(
            ar,
            #[trigger] out[i],
            |m: Reading|
                (m.word)(input[i]) + (m.word)(repeated(before, n, out, i)) * (m.word)(
                    before.params[0],
                ),
        )
    &&& after.definition == before.definition
    &&& after.params == before.params
    &&& after.pointer == put(before, n, out.len() as int)
    &&& after.buffer.len() == before.buffer.len()
    &&& forall|j: int|
        put_last(before, n, out, j) ==> after.buffer[put(before, n, j)] == #[trigger] out[j]
    &&& forall|q: int|
        put_nowhere(before, n, out, q) ==> #[trigger] after.buffer[q] == before.buffer[q]
}

/// A place of the buffer that was not written to holds what it held.
proof fn lemma_recorded_elsewhere(buffer: Seq<u32>, p: int, n: int, out: Seq<u32>, q: int)
    requires
        0 < n <= buffer.len(),
        0 <= p < buffer.len(),
        0 <= q < buffer.len(),
        forall|k: int| 0 <= k < out.len() ==> #[trigger] pointer_after(p, n, k) != q,
    ensures
        recorded(buffer, p, n, out)[q] == buffer[q],
    decreases out.len(),
{
    if out.len() > 0 {
        let last = out.len() - 1;
        lemma_recorded_elsewhere(buffer, p, n, out.drop_last(), q);
        lemma_recorded_len(buffer, p, n, out.drop_last());
        assert(pointer_after(p, n, last) != q);
        vstd::arithmetic::div_mod::lemma_mod_bound(p + last, n);
    }
}

/// A place of the buffer holds what was last written to it.
proof fn lemma_recorded_last(buffer: Seq<u32>, p: int, n: int, out: Seq<u32>, j: int)
    requires
        0 < n <= buffer.len(),
        0 <= p < buffer.len(),
        0 <= j < out.len(),
        forall|k: int|
            j < k < out.len() ==> #[trigger] pointer_after(p, n, k) != pointer_after(p, n, j),
    ensures
        recorded(buffer, p, n, out)[pointer_after(p, n, j)] == out[j],
    decreases out.len(),
{
    let last = out.len() - 1;
    let shorter = out.drop_last();
    lemma_recorded_len(buffer, p, n, shorter);
    vstd::arithmetic::div_mod::lemma_mod_bound(p + last, n);
    vstd::arithmetic::div_mod::lemma_mod_bound(p + j, n);
    if j < last {
        lemma_recorded_last(buffer, p, n, shorter, j);
        assert(pointer_after(p, n, last) != pointer_after(p, n, j));
    }
}

/// Two steps that are less than a round apart do not meet.
proof fn lemma_apart(p: int, n: int, a: int, b: int)
    requires
        n > 0,
        0 < b - a < n,
    ensures
        (p + a) % n != (p + b) % n,
{
    if (p + a) % n == (p + b) % n {
        vstd::arithmetic::div_mod::lemma_mod_equivalence(p + b, p + a, n);
        vstd::arithmetic::div_mod::lemma_small_mod((b - a) as nat, n as nat);
    }
}

proof fn lemma_echo_is_repeated(before: EffectView, n: int, out: Seq<u32>, i: int)
    requires
        2 <= n <= before.buffer.len(),
        0 <= before.pointer < before.buffer.len(),
        0 <= i < out.len(),
    ensures
        echo(before.buffer, before.pointer, n, out, i) == repeated(before, n, out, i),
{
    let p = before.pointer;
    let q = (p + i + 1) % n;
    let past = out.take(i);
    crate::effect::lemma_step_round(p, n, i);
    assert(pointer_after(p, n, i + 1) == q);
    vstd::arithmetic::div_mod::lemma_mod_bound(p + i + 1, n);
    if i >= n || (i == n - 1 && p < n) {
        let j = i - (n - 1);
        assert(pointer_after(p, n, j) == q) by {
            assert(p + i + 1 == p + j + n);
            vstd::arithmetic::div_mod::lemma_mod_add_multiples_vanish(p + j, n);
            if j == 0 {
                vstd::arithmetic::div_mod::lemma_small_mod(p as nat, n as nat);
            }
        }
        assert forall|k: int| j < k < past.len() implies #[trigger] pointer_after(p, n, k)
            != pointer_after(p, n, j) by {
            lemma_apart(p, n, k, i + 1);
        }
        lemma_recorded_last(before.buffer, p, n, past, j);
    } else {
        assert forall|k: int| 0 <= k < past.len() implies #[trigger] pointer_after(p, n, k)
            != q by {
            if k > 0 {
                lemma_apart(p, n, k, i + 1);
            } else if p < n {
                lemma_apart(p, n, 0, i + 1);
                vstd::arithmetic::div_mod::lemma_small_mod(p as nat, n as nat);
            }
        }
        lemma_recorded_elsewhere(before.buffer, p, n, past, q);
    }
}

proof fn lemma_delay_samples<A: Arithmetic>(
    ar: A,
    before: EffectView,
    n: int,
    input: Seq<u32>,
    out: Seq<u32>,
)
    requires
        2 <= n <= before.buffer.len(),
        0 <= before.pointer < before.buffer.len(),
        delayed(ar, before.params[0], n, before.buffer, before.pointer, input, out),
    ensures
        forall|i: int|
            0 <= i < out.len() ==> stands_for(
                ar,
                #[trigger] out[i],
                |m: Reading|
                    (m.word)(input[i]) + (m.word)(repeated(before, n, out, i)) * (m.word)(
                        before.params[0],
                    ),
            ),
{
    assert forall|i: int| 0 <= i < out.len() implies stands_for(
        ar,
        #[trigger] out[i],
        |m: Reading|
            (m.word)(input[i]) + (m.word)(repeated(before, n, out, i)) * (m.word)(
                before.params[0],
            ),
    ) by {
        lemma_echo_is_repeated(before, n, out, i);
        let e = delay_sample(input[i], repeated(before, n, out, i), before.params[0]);
        assert(evaluates(ar, e, out[i]));
        assert forall|m: Reading| fair(m) implies #[trigger] value(m, e) == (m.word)(input[i]) + (
        m.word)(repeated(before, n, out, i)) * (m.word)(before.params[0]) by {
            reveal_with_fuel(value, 3);
        }
    }
}

proof fn lemma_delay_buffer(before: EffectView, n: int, out: Seq<u32>)
    requires
        2 <= n <= before.buffer.len(),
        0 <= before.pointer < before.buffer.len(),
    ensures
        ({
            let after = recorded(before.buffer, before.pointer, n, out);
            &&& after.len() == before.buffer.len()
            &&& forall|j: int| put_last(before, n, out, j) ==> after[put(before, n, j)]
                == #[trigger] out[j]
            &&& forall|q: int| put_nowhere(before, n, out, q) ==> #[trigger] after[q]
                == before.buffer[q]
        }),
{
    let (p, buffer) = (before.pointer, before.buffer);
    let after = recorded(buffer, p, n, out);
    lemma_recorded_len(buffer, p, n, out);
    assert forall|j: int| put_last(before, n, out, j) implies after[put(before, n, j)]
        == #[trigger] out[j] by {
        assert forall|k: int| j < k < out.len() implies #[trigger] pointer_after(p, n, k)
            != pointer_after(p, n, j) by {
            assert(put(before, n, k) != put(before, n, j));
        }
        lemma_recorded_last(buffer, p, n, out, j);
    }
    assert forall|q: int| put_nowhere(before, n, out, q) implies #[trigger] after[q]
        == buffer[q] by {
        assert forall|k: int| 0 <= k < out.len() implies #[trigger] pointer_after(p, n, k) != q by {
            assert(put(before, n, k) != q);
        }
        lemma_recorded_elsewhere(buffer, p, n, out, q);
    }
}

/// A delay repeats the sound after its time: the loop is twice as many samples
/// long as the time has frames, up to 65536 samples, and what is repeated is
/// what was given one loop, less one sample, before.
pub proof fn law_delay_repeats<A: Arithmetic>(
    ar: A,
    sample_rate: u32,
    before: EffectView,
    input: Seq<u32>,
    out: Seq<u32>,
    after: EffectView,
)
    requires
        before.definition == EffectDefinition::Delay,
        before.buffer.len() == 65536,
        0 <= before.pointer < 65536,
        effect_answers(ar, sample_rate, before, input, out, after),
    ensures
        exists|t: usize, n: int|
            {
                &&& #[trigger] is_loop(t, n)
                &&& counted_from(
                    ar,
                    t,
                    |m: Reading| (m.word)(before.params[1]) * sample_rate as real,
                )
                &&& repeats(ar, n, before, input, out, after)
            },
{
    let (p, buffer) = (before.pointer, before.buffer);
    let time = word(before.params[1]).times(natural(sample_rate as int));
    let t = choose|t: usize|
        {
            let n = line_length(t);
            &&& #[trigger] counts(ar, time, t)
            &&& delayed(ar, before.params[0], n, buffer, p, input, out)
            &&& after == EffectView {
                buffer: recorded(buffer, p, n, out),
                pointer: pointer_after(p, n, out.len() as int),
                ..before
            }
        };
    let n = line_length(t);
    assert(is_loop(t, n));
    assert(counts(ar, time, t));
    assert forall|m: Reading| fair(m) implies #[trigger] value(m, time) == (m.word)(
        before.params[1],
    ) * sample_rate as real by {
        reveal_with_fuel(value, 2);
    }
    lemma_delay_samples(ar, before, n, input, out);
    lemma_delay_buffer(before, n, out);
    assert(repeats(ar, n, before, input, out, after));
}

// The clip

/// A clipped sample is the input times 64 times the first gain, kept between -1
/// and 1, times the second gain.
pub proof fn law_clip_cuts_off<A: Arithmetic>(
    ar: A,
    sample_rate: u32,
    before: EffectView,
    input: Seq<u32>,
    out: Seq<u32>,
    after: EffectView,
    i: int,
)
    requires
        before.definition == EffectDefinition::HardClip,
        effect_answers(ar, sample_rate, before, input, out, after),
        0 <= i < input.len(),
    ensures
        after == before,
        out.len() == input.len(),
        stands_for(
            ar,
            out[i],
            |m: Reading|
                limit(
                    64 as real * ((m.word)(input[i]) * (m.word)(before.params[0])),
                    -(1 as real),
                    1 as real,
                ) * (m.word)(before.params[1]),
        ),
{
    let e = clip_sample(input[i], before.params);
    assert(evaluates(ar, e, out[i]));
    assert forall|m: Reading| fair(m) implies #[trigger] value(m, e) == limit(
        64 as real * ((m.word)(input[i]) * (m.word)(before.params[0])),
        -(1 as real),
        1 as real,
    ) * (m.word)(before.params[1]) by {
        reveal_with_fuel(value, 5);
        lemma_product(
            (m.word)(input[i]) * (m.word)(before.params[0]),
            (m.word)(SIXTY_FOUR),
            64 as real,
        );
    }
}

// The panning

/// The share of a side that stays on its side, for a position that runs from 0,
/// this side's opposite end, to 1, its own end: it grows to the whole at the
/// middle, and shrinks to a half behind it.
pub open spec fn own_share(x: real) -> real {
    if 2 as real * x < 1 as real {
        2 as real * x
    } else {
        3 as real / 2 as real - x
    }
}

/// The share of a side that goes to the other side: none up to the middle, and
/// up to a half at the end.
pub open spec fn given_share(x: real) -> real {
    if 2 as real * x < 1 as real {
        0 as real
    } else {
        x - 1 as real / 2 as real
    }
}

/// A panned frame: each side keeps a share of its own and gets a share of the
/// other. Left and right mirror each other: what the position is to the right,
/// its distance from 1 is to the left. A last sample without a partner is
/// silent.
pub proof fn law_pan_shares<A: Arithmetic>(
    ar: A,
    sample_rate: u32,
    before: EffectView,
    input: Seq<u32>,
    out: Seq<u32>,
    after: EffectView,
    f: int,
)
    requires
        before.definition == EffectDefinition::Pan,
        effect_answers(ar, sample_rate, before, input, out, after),
        0 <= f,
    ensures
        after == before,
        out.len() == input.len(),
        2 * f + 1 == input.len() ==> out[2 * f] == ZERO,
        2 * f + 1 < input.len() ==> {
            &&& stands_for(
                ar,
                out[2 * f],
                |m: Reading|
                    {
                        let x = (m.word)(before.params[0]);
                        (m.word)(input[2 * f]) * own_share(1 as real - x) + (m.word)(
                            input[2 * f + 1],
                        ) * given_share(1 as real - x)
                    },
            )
            &&& stands_for(
                ar,
                out[2 * f + 1],
                |m: Reading|
                    {
                        let x = (m.word)(before.params[0]);
                        (m.word)(input[2 * f]) * given_share(x) + (m.word)(input[2 * f + 1])
                            * own_share(x)
                    },
            )
        },
{
    let pan = before.params[0];
    if 2 * f < input.len() {
        assert((2 * f) % 2 == 0);
        assert(out[2 * f] == out[2 * f]);
    }
    if 2 * f + 1 < input.len() {
        let left = pan_left(input[2 * f], input[2 * f + 1], pan);
        let right = pan_right(input[2 * f], input[2 * f + 1], pan);
        assert((2 * f + 1) % 2 == 1);
        assert(evaluates(ar, left, out[2 * f]));
        assert(evaluates(ar, right, out[2 * f + 1]));
        assert forall|m: Reading| fair(m) implies #[trigger] value(m, left) == ({
            let x = (m.word)(pan);
            (m.word)(input[2 * f]) * own_share(1 as real - x) + (m.word)(input[2 * f + 1])
                * given_share(1 as real - x)
        }) by {
            reveal_with_fuel(value, 6);
            lemma_product((m.word)(pan), (m.word)(TWO), 2 as real);
        }
        assert forall|m: Reading| fair(m) implies #[trigger] value(m, right) == ({
            let x = (m.word)(pan);
            (m.word)(input[2 * f]) * given_share(x) + (m.word)(input[2 * f + 1]) * own_share(x)
        }) by {
            reveal_with_fuel(value, 6);
            lemma_product((m.word)(pan), (m.word)(TWO), 2 as real);
        }
    }
}

/// Panning is continuous and one-sided shares are bounded: the own share rises
/// without a jump from nothing at one end to the whole in the middle, and falls
/// to a half at the other end, where the given share makes up for the fall.
pub proof fn law_shares_of_a_side(x: real, y: real)
    requires
        0 as real <= x <= y <= 1 as real,
    ensures
        own_share(0 as real) == 0 as real,
        2 as real * x == 1 as real ==> own_share(x) == 1 as real && given_share(x) == 0 as real,
        2 as real * y <= 1 as real ==> own_share(y) - own_share(x) == 2 as real * (y - x),
        2 as real * x >= 1 as real ==> own_share(x) + given_share(x) == 1 as real,
        2 as real * x >= 1 as real ==> own_share(x) - own_share(y) == y - x,
{
}

/// Panning to the one side is panning to the other with the sides exchanged.
pub proof fn law_pan_is_symmetric<A: Arithmetic>(
    ar: A,
    sample_rate: u32,
    before: EffectView,
    input: Seq<u32>,
    out: Seq<u32>,
    other: EffectView,
    swapped: Seq<u32>,
    other_out: Seq<u32>,
    f: int,
)
    requires
        before.definition == EffectDefinition::Pan,
        other.definition == EffectDefinition::Pan,
        effect_answers(ar, sample_rate, before, input, out, before),
        effect_answers(ar, sample_rate, other, swapped, other_out, other),
        0 <= f,
        2 * f + 1 < input.len(),
        swapped.len() == input.len(),
        swapped[2 * f] == input[2 * f + 1],
        swapped[2 * f + 1] == input[2 * f],
    ensures
        exists|v: spec_fn(Reading) -> real, w: spec_fn(Reading) -> real|
            {
                &&& #[trigger] stands_for(ar, out[2 * f], v)
                &&& #[trigger] stands_for(ar, other_out[2 * f + 1], w)
                &&& forall|m: Reading|
                    fair(m) && (m.word)(other.params[0]) == 1 as real - (m.word)(before.params[0])
                        ==> #[trigger] v(m) == w(m)
            },
{
    let v = |m: Reading|
        {
            let x = (m.word)(before.params[0]);
            (m.word)(input[2 * f]) * own_share(1 as real - x) + (m.word)(input[2 * f + 1])
                * given_share(1 as real - x)
        };
    let w = |m: Reading|
        {
            let x = (m.word)(other.params[0]);
            (m.word)(swapped[2 * f]) * given_share(x) + (m.word)(swapped[2 * f + 1]) * own_share(x)
        };
    law_pan_shares(ar, sample_rate, before, input, out, before, f);
    law_pan_shares(ar, sample_rate, other, swapped, other_out, other, f);
    assert(stands_for(ar, out[2 * f], v));
    assert(stands_for(ar, other_out[2 * f + 1], w));
}

/// An effect that was just added changes nothing that lies between -1 and 1,
/// until one of its values is set.
pub proof fn law_fresh_effect_changes_nothing<A: Arithmetic>(
    ar: A,
    sample_rate: u32,
    definition: EffectDefinition,
    input: Seq<u32>,
    out: Seq<u32>,
    after: EffectView,
    i: int,
)
    requires
        effect_answers(ar, sample_rate, fresh_effect(definition), input, out, after),
        0 <= i < input.len(),
        input.len() % 2 == 0,
    ensures
        out.len() == input.len(),
        exists|v: spec_fn(Reading) -> real|
            {
                &&& #[trigger] stands_for(ar, out[i], v)
                &&& forall|m: Reading|
                    fair(m) && -(1 as real) <= (m.word)(input[i]) <= 1 as real ==> #[trigger] v(m)
                        == (m.word)(input[i])
            },
{
    let before = fresh_effect(definition);
    match definition {
        EffectDefinition::Delay => {
            law_delay_repeats(ar, sample_rate, before, input, out, after);
            let (t, n) = choose|t: usize, n: int|
                {
                    &&& #[trigger] is_loop(t, n)
                    &&& counted_from(
                        ar,
                        t,
                        |m: Reading| (m.word)(before.params[1]) * sample_rate as real,
                    )
                    &&& repeats(ar, n, before, input, out, after)
                };
            let v = |m: Reading|
                (m.word)(input[i]) + (m.word)(repeated(before, n, out, i)) * (m.word)(
                    before.params[0],
                );
            assert(stands_for(ar, out[i], v));
            assert forall|m: Reading| fair(m) implies #[trigger] v(m) == (m.word)(input[i]) by {
                lemma_product(
                    (m.word)(repeated(before, n, out, i)),
                    (m.word)(ZERO),
                    0 as real,
                );
            }
        },
        EffectDefinition::HardClip => {
            law_clip_cuts_off(ar, sample_rate, before, input, out, after, i);
            let v = |m: Reading|
                limit(
                    64 as real * ((m.word)(input[i]) * (m.word)(before.params[0])),
                    -(1 as real),
                    1 as real,
                ) * (m.word)(before.params[1]);
            assert(stands_for(ar, out[i], v));
            assert forall|m: Reading|
                fair(m) && -(1 as real) <= (m.word)(input[i]) <= 1 as real implies #[trigger] v(m)
                == (m.word)(input[i]) by {
                let x = (m.word)(input[i]);
                let g = (m.word)(ONE_SIXTY_FOURTH);
                assert(64 as real * (x * g) == x) by (nonlinear_arith)
                    requires
                        64 as real * g == 1 as real,
                ;
                lemma_product(x, (m.word)(ONE), 1 as real);
            }
        },
        EffectDefinition::Pan => {
            let f = i / 2;
            law_pan_shares(ar, sample_rate, before, input, out, after, f);
            let l = input[2 * f];
            let r = input[2 * f + 1];
            let left = |m: Reading|
                {
                    let x = (m.word)(before.params[0]);
                    (m.word)(l) * own_share(1 as real - x) + (m.word)(r) * given_share(
                        1 as real - x,
                    )
                };
            let right = |m: Reading|
                {
                    let x = (m.word)(before.params[0]);
                    (m.word)(l) * given_share(x) + (m.word)(r) * own_share(x)
                };
            assert(stands_for(ar, out[2 * f], left));
            assert(stands_for(ar, out[2 * f + 1], right));
            assert forall|m: Reading| fair(m) implies #[trigger] left(m) == (m.word)(l) by {
                let x = (m.word)(HALF);
                lemma_product((m.word)(l), own_share(1 as real - x), 1 as real);
                lemma_product((m.word)(r), given_share(1 as real - x), 0 as real);
            }
            assert forall|m: Reading| fair(m) implies #[trigger] right(m) == (m.word)(r) by {
                let x = (m.word)(HALF);
                lemma_product((m.word)(r), own_share(x), 1 as real);
                lemma_product((m.word)(l), given_share(x), 0 as real);
            }
            if i % 2 == 0 {
                assert(i == 2 * f);
            } else {
                assert(i == 2 * f + 1);
            }
        },
    }
}

// The wetness

/// A blended sample is the dry one and the wet one, in shares that make up the
/// whole: the wetness is the share of the wet one.
pub proof fn law_blend_is_in_between<A: Arithmetic>(
    ar: A,
    dry: Seq<u32>,
    wet: Seq<u32>,
    wetness: u32,
    out: Seq<u32>,
    i: int,
)
    requires
        blended(ar, dry, wet, wetness, out),
        0 <= i < dry.len(),
    ensures
        out.len() == dry.len(),
        stands_for(
            ar,
            out[i],
            |m: Reading|
                (m.word)(dry[i]) + (m.word)(wetness) * ((m.word)(wet[i]) - (m.word)(dry[i])),
        ),
{
    let e = blend(dry[i], wet[i], wetness);
    assert(evaluates(ar, e, out[i]));
    assert forall|m: Reading| fair(m) implies #[trigger] value(m, e) == (m.word)(dry[i]) + (m.word)(
        wetness,
    ) * ((m.word)(wet[i]) - (m.word)(dry[i])) by {
        reveal_with_fuel(value, 4);
        let (d, w, s) = ((m.word)(dry[i]), (m.word)(wet[i]), (m.word)(wetness));
        assert(d * (1 as real - s) + w * s == d + s * (w - d)) by (nonlinear_arith);
    }
}

/// What stands between the effects: each gets what the one before it gave,
/// blended; the first gets the mix, and the last one's blend is the result.
pub open spec fn stages<A: Arithmetic>(
    ar: A,
    sample_rate: u32,
    before: Seq<EffectView>,
    wetness: Seq<u32>,
    signals: Seq<Seq<u32>>,
    wets: Seq<Seq<u32>>,
    after: Seq<EffectView>,
) -> bool {
    &&& after.len() == before.len()
    &&& wets.len() == before.len()
    &&& signals.len() == before.len() + 1
    &&& forall|k: int|
        0 <= k < before.len() ==> effect_answers(
            ar,
            sample_rate,
            before[k],
            signals[k],
            #[trigger] wets[k],
            after[k],
        )
    &&& forall|k: int|
        0 <= k < before.len() ==> blended(
            ar,
            signals[k],
            #[trigger] wets[k],
            wetness[k],
            signals[k + 1],
        )
}

/// Each effect is passed once, in the order of the stack, with its own wetness.
#[verifier::spinoff_prover]
#[verifier::rlimit(50)]
pub proof fn law_effects_in_order<A: Arithmetic>(
    ar: A,
    sample_rate: u32,
    before: Seq<EffectView>,
    wetness: Seq<u32>,
    dry: Seq<u32>,
    out: Seq<u32>,
    after: Seq<EffectView>,
)
    requires
        through(ar, sample_rate, before, wetness, dry, out, after),
        wetness.len() == before.len(),
    ensures
        exists|signals: Seq<Seq<u32>>, wets: Seq<Seq<u32>>|
            {
                &&& #[trigger] stages(ar, sample_rate, before, wetness, signals, wets, after)
                &&& signals[0] == dry
                &&& signals.last() == out
            },
    decreases before.len(),
{
    if before.len() == 0 {
        let signals = seq![dry];
        let wets = Seq::<Seq<u32>>::empty();
        assert(stages(ar, sample_rate, before, wetness, signals, wets, after));
    } else {
        let (mid, wet) = choose|mid: Seq<u32>, wet: Seq<u32>|
            {
                &&& through(
                    ar,
                    sample_rate,
                    before.drop_last(),
                    wetness.drop_last(),
                    dry,
                    mid,
                    after.drop_last(),
                )
                &&& #[trigger] effect_answers(
                    ar,
                    sample_rate,
                    before.last(),
                    mid,
                    wet,
                    after.last(),
                )
                &&& blended(ar, mid, wet, wetness.last(), out)
            };
        law_effects_in_order(
            ar,
            sample_rate,
            before.drop_last(),
            wetness.drop_last(),
            dry,
            mid,
            after.drop_last(),
        );
        let (signals, wets) = choose|signals: Seq<Seq<u32>>, wets: Seq<Seq<u32>>|
            {
                &&& #[trigger] stages(
                    ar,
                    sample_rate,
                    before.drop_last(),
                    wetness.drop_last(),
                    signals,
                    wets,
                    after.drop_last(),
                )
                &&& signals[0] == dry
                &&& signals.last() == mid
            };
        let more = signals.push(out);
        let more_wets = wets.push(wet);
        let last = before.len() - 1;
        assert forall|k: int| 0 <= k < before.len() implies effect_answers(
            ar,
            sample_rate,
            before[k],
            more[k],
            #[trigger] more_wets[k],
            after[k],
        ) by {
            if k < last {
                assert(wets[k] == more_wets[k]);
                assert(before.drop_last()[k] == before[k]);
                assert(after.drop_last()[k] == after[k]);
            }
        }
        assert forall|k: int| 0 <= k < before.len() implies blended(
            ar,
            more[k],
            #[trigger] more_wets[k],
            wetness[k],
            more[k + 1],
        ) by {
            if k < last {
                assert(wets[k] == more_wets[k]);
                assert(wetness.drop_last()[k] == wetness[k]);
            }
        }
        assert(stages(ar, sample_rate, before, wetness, more, more_wets, after));
    }
}

// The region

/// What enters the region is the signal, kept between -1 and 1.
pub proof fn law_region_takes_limited<A: Arithmetic>(
    ar: A,
    signal: Seq<u32>,
    n: int,
    samples: Seq<u32>,
    i: int,
)
    requires
        limited(ar, signal, n, samples),
        0 <= i < n,
    ensures
        samples.len() == n,
        stands_for(
            ar,
            samples[i],
            |m: Reading| limit((m.word)(signal[i]), -(1 as real), 1 as real),
        ),
{
    let e = word(signal[i]).clamp(MINUS_ONE, ONE);
    assert(evaluates(ar, e, samples[i]));
    assert forall|m: Reading| fair(m) implies #[trigger] value(m, e) == limit(
        (m.word)(signal[i]),
        -(1 as real),
        1 as real,
    ) by {
        reveal_with_fuel(value, 2);
    }
}

/// How much of a new sample the smoothing lets through, in exact numbers: it
/// forgets in 23 milliseconds.
pub open spec fn let_through(m: Reading, sample_rate: u32) -> real {
    let samples = 23 as real * sample_rate as real / 1000 as real;
    let least = (m.word)(LOWEST);
    (m.exp)(
        -(1 as real) / if samples >= least {
            samples
        } else {
            least
        },
    )
}

/// The place `d` samples on from `p`, round the region.
pub open spec fn round(p: int, d: int) -> int {
    (p + d) % 2048
}

/// Smoothing the seam at `p` holds the sample three before it: in the frame
/// before the seam and in the two behind it, the right sample becomes the held
/// one, and the left one a mixture of the held one and of what was on the right.
/// Nothing else changes.
pub proof fn law_seam_is_smoothed<A: Arithmetic>(
    ar: A,
    sample_rate: u32,
    p: int,
    before: Seq<u32>,
    after: Seq<u32>,
)
    requires
        declicked(ar, sample_rate, p, before, after),
        before.len() == 2048,
        0 <= p < 2048,
        p != 3,
    ensures
        after.len() == 2048,
        frame_smoothed(ar, sample_rate, p, before, after, -2),
        frame_smoothed(ar, sample_rate, p, before, after, 0),
        frame_smoothed(ar, sample_rate, p, before, after, 2),
        forall|d: int| 4 <= d < 2046 ==> after[#[trigger] round(p, d)] == before[round(p, d)],
{
    let start = declick_start(p);
    let smoothed = choose|smoothed: Seq<u32>|
        {
            &&& smoothed.len() == DECLICK_SIZE / 2 - 1
            &&& #[trigger] smoothed_samples(ar, sample_rate, before, start, smoothed)
            &&& after == declicked_frames(before, start, smoothed)
        };
    lemma_seam_places(p);
    lemma_seam_frame(ar, sample_rate, p, before, smoothed, 0);
    lemma_seam_frame(ar, sample_rate, p, before, smoothed, 1);
    lemma_seam_frame(ar, sample_rate, p, before, smoothed, 2);
    lemma_seam_rest(p, before, smoothed);
}

/// The frame that begins `d` samples on from `p` is smoothed: on the right stands
/// the held sample, on the left a mixture.
pub open spec fn frame_smoothed<A: Arithmetic>(
    ar: A,
    sample_rate: u32,
    p: int,
    before: Seq<u32>,
    after: Seq<u32>,
    d: int,
) -> bool {
    &&& after[round(p, d + 1)] == before[round(p, -3)]
    &&& stands_for(
        ar,
        after[round(p, d)],
        |m: Reading|
            {
                let held = (m.word)(before[round(p, -3)]);
                let c = let_through(m, sample_rate);
                held * (1 as real - c) + (m.word)(before[round(p, d + 1)]) * c
            },
    )
}

proof fn lemma_seam_frame<A: Arithmetic>(
    ar: A,
    sample_rate: u32,
    p: int,
    before: Seq<u32>,
    smoothed: Seq<u32>,
    k: int,
)
    requires
        before.len() == 2048,
        0 <= p < 2048,
        p != 3,
        smoothed.len() == 3,
        smoothed_samples(ar, sample_rate, before, declick_start(p), smoothed),
        0 <= k < 3,
    ensures
        frame_smoothed(
            ar,
            sample_rate,
            p,
            before,
            declicked_frames(before, declick_start(p), smoothed),
            2 * k - 2,
        ),
{
    let start = declick_start(p);
    let d = 2 * k - 2;
    let after = declicked_frames(before, start, smoothed);
    lemma_seam_places(p);
    lemma_frame_places(before, start, smoothed, k);
    lemma_seam_reads(before, start, smoothed, k);
    let sample = before[round(p, d + 1)];
    let e = smooth(sample_rate, before[start + 1], sample);
    assert((start + 2 * k + 2) % 2048 == round(p, d));
    assert((start + 2 * k + 3) % 2048 == round(p, d + 1));
    assert(evaluates(ar, e, smoothed[k]));
    assert forall|m: Reading| fair(m) implies #[trigger] value(m, e) == ({
        let h = (m.word)(before[round(p, -3)]);
        let c = let_through(m, sample_rate);
        h * (1 as real - c) + (m.word)(sample) * c
    }) by {
        lemma_coefficient(m, sample_rate);
        reveal_with_fuel(value, 4);
    }
}

/// Where a smoothed frame stands after all three.
proof fn lemma_frame_places(region: Seq<u32>, start: int, smoothed: Seq<u32>, k: int)
    requires
        region.len() == 2048,
        0 <= start < 2047,
        smoothed.len() == 3,
        0 <= k < 3,
    ensures
        ({
            let after = declicked_frames(region, start, smoothed);
            &&& after[(start + 2 * k + 2) % 2048] == smoothed[k]
            &&& after[(start + 2 * k + 3) % 2048] == region[start + 1]
        }),
{
    lemma_three_frames(region, start, smoothed);
}

proof fn lemma_seam_rest(p: int, before: Seq<u32>, smoothed: Seq<u32>)
    requires
        before.len() == 2048,
        0 <= p < 2048,
        p != 3,
        smoothed.len() == 3,
    ensures
        ({
            let after = declicked_frames(before, declick_start(p), smoothed);
            &&& after.len() == 2048
            &&& forall|d: int|
                4 <= d < 2046 ==> after[#[trigger] round(p, d)] == before[round(p, d)]
        }),
{
    let after = declicked_frames(before, declick_start(p), smoothed);
    lemma_seam_places(p);
    lemma_three_frames(before, declick_start(p), smoothed);
    assert forall|d: int| 4 <= d < 2046 implies after[#[trigger] round(p, d)] == before[round(
        p,
        d,
    )] by {
        lemma_seam_elsewhere(p, d);
    }
}

proof fn lemma_coefficient(m: Reading, sample_rate: u32)
    requires
        fair(m),
    ensures
        value(m, coefficient(sample_rate)) == let_through(m, sample_rate),
{
    reveal_with_fuel(value, 6);
    let (w, r) = ((m.word)(SMOOTHING_SECONDS), sample_rate as real);
    assert(w * r == 23 as real * r / 1000 as real) by (nonlinear_arith)
        requires
            1000 as real * w == 23 as real,
    ;
}

/// The places of a seam, counted from its start.
proof fn lemma_seam_places(p: int)
    requires
        0 <= p < 2048,
        p != 3,
    ensures
        ({
            let start = declick_start(p);
            &&& 0 <= start < 2047
            &&& start + 1 == round(p, -3)
            &&& (start + 2) % 2048 == round(p, -2)
            &&& (start + 3) % 2048 == round(p, -1)
            &&& (start + 4) % 2048 == round(p, 0)
            &&& (start + 5) % 2048 == round(p, 1)
            &&& (start + 6) % 2048 == round(p, 2)
            &&& (start + 7) % 2048 == round(p, 3)
        }),
{
}

proof fn lemma_seam_elsewhere(p: int, d: int)
    requires
        0 <= p < 2048,
        4 <= d < 2046,
    ensures
        0 <= round(p, d) < 2048,
        round(p, d) != round(p, -2),
        round(p, d) != round(p, -1),
        round(p, d) != round(p, 0),
        round(p, d) != round(p, 1),
        round(p, d) != round(p, 2),
        round(p, d) != round(p, 3),
{
}

/// The three smoothed frames, written one after the other.
proof fn lemma_three_frames(region: Seq<u32>, start: int, smoothed: Seq<u32>)
    requires
        region.len() == 2048,
        0 <= start < 2047,
        smoothed.len() == 3,
    ensures
        ({
            let after = declicked_frames(region, start, smoothed);
            let held = region[start + 1];
            &&& after == region.update((start + 2) % 2048, smoothed[0]).update(
                (start + 3) % 2048,
                held,
            ).update((start + 4) % 2048, smoothed[1]).update((start + 5) % 2048, held).update(
                (start + 6) % 2048,
                smoothed[2],
            ).update((start + 7) % 2048, held)
        }),
{
    reveal_with_fuel(declicked_frames, 4);
    let two = smoothed.drop_last();
    let one = two.drop_last();
    assert(one.drop_last().len() == 0);
    assert(two.last() == smoothed[1]);
    assert(one.last() == smoothed[0]);
}

/// What the smoothing of a frame reads has not been smoothed before.
proof fn lemma_seam_reads(region: Seq<u32>, start: int, smoothed: Seq<u32>, k: int)
    requires
        region.len() == 2048,
        0 <= start < 2047,
        smoothed.len() == 3,
        0 <= k < 3,
    ensures
        declicked_frames(region, start, smoothed.take(k))[(start + 2 * k + 3) % 2048] == region[(
        start + 2 * k + 3) % 2048],
{
    reveal_with_fuel(declicked_frames, 4);
    let past = smoothed.take(k);
    if k == 2 {
        assert(past.drop_last().drop_last().len() == 0);
    } else if k == 1 {
        assert(past.drop_last().len() == 0);
    }
}

} // verus!
