//! Formulas read in exact numbers, and what the sounds are in these.

use std::collections::hash_map::DefaultHasher;

use vstd::prelude::*;
use vstd::arithmetic::power2::{
    lemma2_to64, lemma2_to64_rest, lemma_pow2_pos, lemma_pow2_unfold, pow2,
};
use vstd::std_specs::hash::DefaultHasherAdditionalSpecFns;

use crate::arithmetic::{
    counts, evaluates, Arithmetic, Expr, HALF, MINUS_ONE, ONE, ONE_AND_HALF, QUARTER, SIXTY_FOUR,
    TWO, ZERO,
};
use crate::effect::ONE_SIXTY_FOURTH;
use crate::generator::{
    instant, native_bytes, noise_from, noise_sample, noise_writes, saw_sample,
    sine_sample, sounds_like, usize_width, GeneratorDefinition, CONCERT_PITCH, FORTY, HASH_RANGE,
    SIXTY_THREE, SIX_TENTHS, TAU, THIRTY, THREE_TENTHS,
};
use crate::desk::{NOTE_OF_TOPLEFT, SCREEN_WIDTH, THREE, TWELVE};
use crate::region::SMOOTHING_SECONDS;

verus! {

/// How to read formulas in exact numbers: what the words stand for, and the
/// functions that are more than arithmetic.
pub struct Reading {
    pub word: spec_fn(u32) -> real,
    pub sin: spec_fn(real) -> real,
    pub exp: spec_fn(real) -> real,
    pub fract: spec_fn(real) -> real,
    pub powf: spec_fn(real, real) -> real,
    pub powi: spec_fn(real, int) -> real,
}

/// A number between two limits, or the nearer limit.
pub open spec fn limit(x: real, low: real, high: real) -> real {
    if x < low {
        low
    } else if x > high {
        high
    } else {
        x
    }
}

/// A formula read in exact numbers.
pub open spec fn value(m: Reading, e: Expr) -> real
    decreases e,
{
    match e {
        Expr::Word(w) => (m.word)(w),
        Expr::Natural(n) => n as real,
        Expr::Integer(n) => n as real,
        Expr::Neg(x) => -value(m, *x),
        Expr::Sin(x) => (m.sin)(value(m, *x)),
        Expr::Exp(x) => (m.exp)(value(m, *x)),
        Expr::Fract(x) => (m.fract)(value(m, *x)),
        Expr::Plus(x, y) => value(m, *x) + value(m, *y),
        Expr::Minus(x, y) => value(m, *x) - value(m, *y),
        Expr::Times(x, y) => value(m, *x) * value(m, *y),
        Expr::Over(x, y) => value(m, *x) / value(m, *y),
        Expr::Max(x, y) => if value(m, *x) >= value(m, *y) {
            value(m, *x)
        } else {
            value(m, *y)
        },
        Expr::Powf(x, y) => (m.powf)(value(m, *x), value(m, *y)),
        Expr::Powi(x, n) => (m.powi)(value(m, *x), n as int),
        Expr::Clamp(x, low, high) => limit(value(m, *x), (m.word)(low), (m.word)(high)),
        Expr::IfLess(x, y, yes, no) => if value(m, *x) < value(m, *y) {
            value(m, *yes)
        } else {
            value(m, *no)
        },
    }
}

/// The words that the library writes down stand for the numbers they are
/// written for.
pub open spec fn fair(m: Reading) -> bool {
    &&& (m.word)(ZERO) == 0 as real
    &&& 4 as real * (m.word)(QUARTER) == 1 as real
    &&& 2 as real * (m.word)(HALF) == 1 as real
    &&& (m.word)(ONE) == 1 as real
    &&& 2 as real * (m.word)(ONE_AND_HALF) == 3 as real
    &&& (m.word)(TWO) == 2 as real
    &&& (m.word)(MINUS_ONE) == -(1 as real)
    &&& (m.word)(SIXTY_FOUR) == 64 as real
    &&& 64 as real * (m.word)(ONE_SIXTY_FOURTH) == 1 as real
    &&& 10 as real * (m.word)(THREE_TENTHS) == 3 as real
    &&& 5 as real * (m.word)(SIX_TENTHS) == 3 as real
    &&& (m.word)(THIRTY) == 30 as real
    &&& (m.word)(FORTY) == 40 as real
    &&& (m.word)(SIXTY_THREE) == 63 as real
    &&& (m.word)(CONCERT_PITCH) == 440 as real
    &&& (m.word)(HASH_RANGE) == 0x1_0000_0000_0000_0000int as real
    &&& (m.word)(THREE) == 3 as real
    &&& (m.word)(TWELVE) == 12 as real
    &&& (m.word)(SCREEN_WIDTH) == 1920 as real
    &&& (m.word)(NOTE_OF_TOPLEFT) == -(7 as real)
    &&& 1000 as real * (m.word)(SMOOTHING_SECONDS) == 23 as real
}

/// A power of two.
pub open spec fn two_to(n: int) -> real
    decreases
            (if n >= 0 {
                n
            } else {
                -n
            }),
{
    if n == 0 {
        1 as real
    } else if n > 0 {
        2 as real * two_to(n - 1)
    } else {
        two_to(n + 1) / 2 as real
    }
}

/// The size of the last place of a word.
pub open spec fn last_place(w: u32) -> real {
    let exponent = (w as int / 0x80_0000) % 256;
    two_to(
        if exponent == 0 {
            -149
        } else {
            exponent - 150
        },
    )
}

/// The digits of a word as a whole number: 23 bits, behind a leading one unless
/// the exponent is 0.
pub open spec fn digits(w: u32) -> int {
    let leading: int = if (w as int / 0x80_0000) % 256 == 0 {
        0
    } else {
        0x80_0000
    };
    leading + w as int % 0x80_0000
}

/// The number that a word encodes.
pub open spec fn encoded(w: u32) -> real {
    let size = digits(w) as real * last_place(w);
    if w >= 0x8000_0000 {
        -size
    } else {
        size
    }
}

/// No word encodes a number that is nearer to `x` than `w` does.
pub open spec fn nearest(w: u32, x: real) -> bool {
    let off = encoded(w) - x;
    2 as real * off <= last_place(w) && -(2 as real) * off <= last_place(w)
}

/// The powers of two that the words are built on.
proof fn lemma_two_to(n: nat)
    ensures
        pow2(n) as real * two_to(-(n as int)) == 1 as real,
        two_to(n as int) == pow2(n) as real,
    decreases n,
{
    if n > 0 {
        lemma_two_to((n - 1) as nat);
        lemma_pow2_unfold(n);
        let p = pow2((n - 1) as nat) as real;
        let q = two_to(-(n as int) + 1);
        assert((2 as real * p) * (q / 2 as real) == p * q) by (nonlinear_arith);
    } else {
        lemma2_to64();
    }
}

/// A word whose digits are `q` parts of `p`, of a last place of two to the power
/// `-n`, stands for the part.
proof fn lemma_encoded(w: u32, n: nat, q: int, p: int)
    requires
        n < 150,
        (w as int / 0x80_0000) % 256 == 150 - n,
        q * digits(w) == p * pow2(n),
    ensures
        w < 0x8000_0000 ==> q as real * encoded(w) == p as real,
        w >= 0x8000_0000 ==> q as real * encoded(w) == -(p as real),
{
    lemma_two_to(n);
    let (d, t, z) = (digits(w), last_place(w), pow2(n) as int);
    assert(q as real * d as real == p as real * z as real) by (nonlinear_arith)
        requires
            q * d == p * z,
    ;
    let (qr, dr, pr, zr) = (q as real, d as real, p as real, z as real);
    assert(qr * (dr * t) == pr && qr * (-(dr * t)) == -pr) by (nonlinear_arith)
        requires
            qr * dr == pr * zr,
            zr * t == 1 as real,
    ;
}

/// A word whose digits are off from `q` parts of `p` by half of the last place or
/// less is the nearest.
proof fn lemma_nearest(w: u32, n: nat, q: int, p: int)
    requires
        n < 150,
        q > 0,
        w < 0x8000_0000,
        (w as int / 0x80_0000) % 256 == 150 - n,
        -q <= 2 * (q * digits(w) - p * pow2(n)) <= q,
    ensures
        nearest(w, p as real / q as real),
{
    lemma_two_to(n);
    lemma_pow2_pos(n);
    let (d, t, z) = (digits(w), last_place(w), pow2(n) as int);
    let off = q * d - p * z;
    assert(q as real * d as real == p as real * z as real + off as real) by (nonlinear_arith)
        requires
            q * d == p * z + off,
    ;
    let (qr, dr, pr, zr, o) = (q as real, d as real, p as real, z as real, off as real);
    let x = pr / qr;
    let e = dr * t - x;
    assert(qr * e == o * t && t > 0 as real) by (nonlinear_arith)
        requires
            qr * dr == pr * zr + o,
            zr * t == 1 as real,
            zr > 0 as real,
            qr > 0 as real,
            e == dr * t - pr / qr,
    ;
    assert(2 as real * e <= t && -(2 as real) * e <= t) by (nonlinear_arith)
        requires
            qr * e == o * t,
            t > 0 as real,
            qr > 0 as real,
            2 as real * o <= qr,
            -(2 as real) * o <= qr,
    ;
}

/// What the words that the library writes down encode.
proof fn lemma_words()
    ensures
        encoded(ZERO) == 0 as real,
        4 as real * encoded(QUARTER) == 1 as real,
        2 as real * encoded(HALF) == 1 as real,
        encoded(ONE) == 1 as real,
        2 as real * encoded(ONE_AND_HALF) == 3 as real,
        encoded(TWO) == 2 as real,
        encoded(MINUS_ONE) == -(1 as real),
        encoded(SIXTY_FOUR) == 64 as real,
        64 as real * encoded(ONE_SIXTY_FOURTH) == 1 as real,
        encoded(THIRTY) == 30 as real,
        encoded(FORTY) == 40 as real,
        encoded(SIXTY_THREE) == 63 as real,
        encoded(CONCERT_PITCH) == 440 as real,
        encoded(HASH_RANGE) == 0x1_0000_0000_0000_0000int as real,
        encoded(THREE) == 3 as real,
        encoded(TWELVE) == 12 as real,
        encoded(SCREEN_WIDTH) == 1920 as real,
        encoded(NOTE_OF_TOPLEFT) == -(7 as real),
        nearest(THREE_TENTHS, 3 as real / 10 as real),
        nearest(SIX_TENTHS, 3 as real / 5 as real),
        nearest(SMOOTHING_SECONDS, 23 as real / 1000 as real),
        nearest(TAU, 6_283_185_307int as real / 1_000_000_000int as real),
{
    lemma2_to64();
    lemma2_to64_rest();
    assert(digits(ZERO) as real * last_place(ZERO) == 0 as real) by (nonlinear_arith)
        requires
            digits(ZERO) == 0,
    ;
    lemma_encoded(QUARTER, 25, 4, 1);
    lemma_encoded(HALF, 24, 2, 1);
    lemma_encoded(ONE, 23, 1, 1);
    lemma_encoded(ONE_AND_HALF, 23, 2, 3);
    lemma_encoded(TWO, 22, 1, 2);
    lemma_encoded(MINUS_ONE, 23, 1, 1);
    lemma_encoded(SIXTY_FOUR, 17, 1, 64);
    lemma_encoded(ONE_SIXTY_FOURTH, 29, 64, 1);
    lemma_encoded(THIRTY, 19, 1, 30);
    lemma_encoded(FORTY, 18, 1, 40);
    lemma_encoded(SIXTY_THREE, 18, 1, 63);
    lemma_encoded(CONCERT_PITCH, 15, 1, 440);
    lemma_encoded(THREE, 22, 1, 3);
    lemma_encoded(TWELVE, 20, 1, 12);
    lemma_encoded(SCREEN_WIDTH, 13, 1, 1920);
    lemma_encoded(NOTE_OF_TOPLEFT, 21, 1, 7);
    lemma_two_to(41);
    assert(digits(HASH_RANGE) as real * last_place(HASH_RANGE)
        == 0x1_0000_0000_0000_0000int as real) by (nonlinear_arith)
        requires
            digits(HASH_RANGE) == 0x80_0000,
            last_place(HASH_RANGE) == 0x200_0000_0000int as real,
    ;
    lemma_nearest(THREE_TENTHS, 25, 10, 3);
    lemma_nearest(SIX_TENTHS, 24, 5, 3);
    lemma_nearest(SMOOTHING_SECONDS, 29, 1000, 23);
    lemma_nearest(TAU, 21, 1_000_000_000, 6_283_185_307);
}

/// The words that the library writes down are the nearest to the numbers they
/// are written for, so that a fair reading departs from what the words encode in
/// three of them alone, by less than the last place.
pub proof fn law_words_are_nearest()
    ensures
        exists|m: Reading| #[trigger]
            fair(m) && forall|w: u32|
                if w == THREE_TENTHS || w == SIX_TENTHS || w == SMOOTHING_SECONDS {
                    nearest(w, #[trigger] (m.word)(w))
                } else {
                    (m.word)(w) == encoded(w)
                },
        nearest(TAU, 6_283_185_307int as real / 1_000_000_000int as real),
{
    lemma_words();
    let word = |w: u32|
        if w == THREE_TENTHS {
            3 as real / 10 as real
        } else if w == SIX_TENTHS {
            3 as real / 5 as real
        } else if w == SMOOTHING_SECONDS {
            23 as real / 1000 as real
        } else {
            encoded(w)
        };
    let m = Reading {
        word,
        sin: |x: real| x,
        exp: |x: real| x,
        fract: |x: real| x,
        powf: |x: real, y: real| x,
        powi: |x: real, n: int| x,
    };
    assert(fair(m));
    assert(nearest(THREE_TENTHS, (m.word)(THREE_TENTHS)));
    assert(nearest(SIX_TENTHS, (m.word)(SIX_TENTHS)));
    assert(nearest(SMOOTHING_SECONDS, (m.word)(SMOOTHING_SECONDS)));
}

/// The word `r` was computed by a formula that, read exactly, is `v`.
pub open spec fn stands_for<A: Arithmetic>(ar: A, r: u32, v: spec_fn(Reading) -> real) -> bool {
    exists|e: Expr|
        #[trigger] evaluates(ar, e, r) && forall|m: Reading| fair(m) ==> #[trigger] value(m, e)
            == v(m)
}

// The generators

/// The time of sample `i` of chunk `chunk_index`, in seconds: two samples are a
/// frame, and the frames are counted on from chunk to chunk.
pub open spec fn seconds(chunk_index: usize, chunk: int, i: int, sample_rate: u32) -> real {
    ((chunk_index * chunk + i) / 2) as real / sample_rate as real
}

/// A held sine is, at every time `t`, the sine of `t` times the pitch, in full
/// turns, at the volume, dying away from the start of the second that `t` lies
/// in: 64 times as fast for a decay of 0 as for a decay of 1.
pub proof fn law_sine_sounds<A: Arithmetic>(
    ar: A,
    sample_rate: u32,
    params: Seq<u32>,
    chunk_index: u128,
    out: Seq<u32>,
    i: int,
)
    requires
        sounds_like(
            ar,
            GeneratorDefinition::SineOsc,
            sample_rate,
            params,
            chunk_index,
            true,
            out,
        ),
        (chunk_index as usize) * out.len() + (out.len() - 1) <= usize::MAX,
        0 <= i < out.len(),
    ensures
        stands_for(
            ar,
            out[i],
            |m: Reading|
                {
                    let t = seconds(chunk_index as usize, out.len() as int, i, sample_rate);
                    (m.sin)(t * (m.word)(params[0]) * (m.word)(TAU)) * ((m.exp)(
                        -(m.fract)(t) * (64 as real - 63 as real * (m.word)(params[2])),
                    ) * (m.word)(params[1]))
                },
        ),
{
    let c = out.len() as int;
    let start = (chunk_index as usize) * c;
    assert(start >= 0) by (nonlinear_arith)
        requires
            start == (chunk_index as usize) * c,
            c >= 0,
    ;
    let frame = (start + i) / 2;
    let e = sine_sample(instant(frame, sample_rate), params);
    assert(evaluates(ar, e, out[i]));
    assert forall|m: Reading| fair(m) implies #[trigger] value(m, e) == ({
        let t = seconds(chunk_index as usize, c, i, sample_rate);
        (m.sin)(t * (m.word)(params[0]) * (m.word)(TAU)) * ((m.exp)(
            -(m.fract)(t) * (64 as real - 63 as real * (m.word)(params[2])),
        ) * (m.word)(params[1]))
    }) by {
        reveal_with_fuel(value, 8);
        lemma_scaled((m.word)(params[2]), (m.word)(SIXTY_THREE), 63 as real);
    }
}

proof fn lemma_scaled(x: real, w: real, n: real)
    requires
        w == n,
    ensures
        x * w == n * x,
{
    assert(x * w == n * x) by (nonlinear_arith)
        requires
            w == n,
    ;
}

/// A chunk's number that can be counted in samples is a `usize`.
proof fn lemma_small_index(chunk_index: u128, chunk: int)
    requires
        chunk > 0,
        chunk_index * chunk + chunk <= usize::MAX,
    ensures
        chunk_index <= usize::MAX,
        chunk_index as usize == chunk_index,
{
    assert(chunk_index <= chunk_index * chunk) by (nonlinear_arith)
        requires
            chunk > 0,
    ;
}

/// A sine is silent as soon as its key is up.
pub proof fn law_released_sine_is_silent<A: Arithmetic>(
    ar: A,
    sample_rate: u32,
    params: Seq<u32>,
    chunk_index: u128,
    out: Seq<u32>,
    i: int,
)
    requires
        sounds_like(
            ar,
            GeneratorDefinition::SineOsc,
            sample_rate,
            params,
            chunk_index,
            false,
            out,
        ),
        0 <= i < out.len(),
    ensures
        out[i] == ZERO,
{
}

/// Two angles that are `k` full turns apart.
pub open spec fn turns_apart(m: Reading, x: real, y: real, k: int) -> bool {
    y == x + k as real * (m.word)(TAU)
}

/// Functions with their periods: the part behind the decimal point repeats with
/// each whole number, the sine with each full turn.
pub open spec fn periodic(m: Reading) -> bool {
    &&& forall|x: real, y: real|
        x >= 0 as real && y == x + 1 as real ==> #[trigger] (m.fract)(x) == #[trigger] (m.fract)(y)
    &&& forall|x: real, y: real, k: int| #[trigger]
        turns_apart(m, x, y, k) ==> (m.sin)(x) == (m.sin)(y)
}

/// A held sine of a whole pitch sounds in each second as in the second before:
/// two samples that are a second apart stand for the same number.
pub proof fn law_held_sine_repeats<A: Arithmetic>(
    ar: A,
    sample_rate: u32,
    params: Seq<u32>,
    first: u128,
    out: Seq<u32>,
    i: int,
    second: u128,
    later: Seq<u32>,
    j: int,
    pitch: int,
)
    requires
        sounds_like(
            ar,
            GeneratorDefinition::SineOsc,
            sample_rate,
            params,
            first,
            true,
            out,
        ),
        sounds_like(
            ar,
            GeneratorDefinition::SineOsc,
            sample_rate,
            params,
            second,
            true,
            later,
        ),
        first * out.len() + out.len() <= usize::MAX,
        second * later.len() + later.len() <= usize::MAX,
        0 <= i < out.len(),
        0 <= j < later.len(),
        sample_rate > 0,
        (second * later.len() + j) / 2 == (first * out.len() + i) / 2 + sample_rate,
    ensures
        exists|v: spec_fn(Reading) -> real, w: spec_fn(Reading) -> real|
            {
                &&& #[trigger] stands_for(ar, out[i], v)
                &&& #[trigger] stands_for(ar, later[j], w)
                &&& forall|m: Reading|
                    #![trigger v(m)]
                    fair(m) && periodic(m) && (m.word)(params[0]) == pitch as real ==> v(m) == w(m)
            },
{
    let c = out.len() as int;
    let d = later.len() as int;
    lemma_small_index(first, c);
    lemma_small_index(second, d);
    let v = |m: Reading|
        {
            let t = seconds(first as usize, c, i, sample_rate);
            (m.sin)(t * (m.word)(params[0]) * (m.word)(TAU)) * ((m.exp)(
                -(m.fract)(t) * (64 as real - 63 as real * (m.word)(params[2])),
            ) * (m.word)(params[1]))
        };
    let w = |m: Reading|
        {
            let t = seconds(second as usize, d, j, sample_rate);
            (m.sin)(t * (m.word)(params[0]) * (m.word)(TAU)) * ((m.exp)(
                -(m.fract)(t) * (64 as real - 63 as real * (m.word)(params[2])),
            ) * (m.word)(params[1]))
        };
    law_sine_sounds(ar, sample_rate, params, first, out, i);
    law_sine_sounds(ar, sample_rate, params, second, later, j);
    lemma_restand(
        ar,
        out[i],
        |m: Reading|
            {
                let t = seconds(first as usize, out.len() as int, i, sample_rate);
                (m.sin)(t * (m.word)(params[0]) * (m.word)(TAU)) * ((m.exp)(
                    -(m.fract)(t) * (64 as real - 63 as real * (m.word)(params[2])),
                ) * (m.word)(params[1]))
            },
        v,
    );
    lemma_restand(
        ar,
        later[j],
        |m: Reading|
            {
                let t = seconds(second as usize, later.len() as int, j, sample_rate);
                (m.sin)(t * (m.word)(params[0]) * (m.word)(TAU)) * ((m.exp)(
                    -(m.fract)(t) * (64 as real - 63 as real * (m.word)(params[2])),
                ) * (m.word)(params[1]))
            },
        w,
    );
    let s = seconds(first as usize, c, i, sample_rate);
    let t = seconds(second as usize, d, j, sample_rate);
    let f = ((first * c + i) / 2) as real;
    let r = sample_rate as real;
    assert(s >= 0 as real && t == s + 1 as real) by {
        assert(first * c >= 0) by (nonlinear_arith)
            requires
                c >= 0,
        ;
        assert(f >= 0 as real);
        assert(f / r >= 0 as real && (f + r) / r == f / r + 1 as real) by (nonlinear_arith)
            requires
                r > 0 as real,
                f >= 0 as real,
        ;
    }
    assert forall|m: Reading|
        fair(m) && periodic(m) && (m.word)(params[0]) == pitch as real implies #[trigger] v(m) == w(
        m,
    ) by {
        let p = pitch as real;
        let turn = (m.word)(TAU);
        assert(t * p * turn == s * p * turn + p * turn) by (nonlinear_arith)
            requires
                t == s + 1 as real,
        ;
        assert(turns_apart(m, s * p * turn, t * p * turn, pitch));
        assert((m.fract)(s) == (m.fract)(t));
    }
}

/// What a word stands for does not depend on how it is written.
proof fn lemma_restand<A: Arithmetic>(
    ar: A,
    r: u32,
    v: spec_fn(Reading) -> real,
    w: spec_fn(Reading) -> real,
)
    requires
        stands_for(ar, r, v),
        forall|m: Reading| fair(m) ==> #[trigger] v(m) == w(m),
    ensures
        stands_for(ar, r, w),
{
    let e = choose|e: Expr|
        #[trigger] evaluates(ar, e, r) && forall|m: Reading| fair(m) ==> #[trigger] value(m, e)
            == v(m);
    assert(evaluates(ar, e, r));
    assert forall|m: Reading| fair(m) implies #[trigger] value(m, e) == w(m) by {
        assert(value(m, e) == v(m));
    }
}

/// A saw is, at every time `t`, a ramp from -1 to 1 of the pitch, whose phase
/// sways by three tenths, in a sine of `t` times 30 on the left and times 40 on
/// the right, at the volume. Once its key is up it dies away as a sine does.
#[verifier::spinoff_prover]
#[verifier::rlimit(40)]
pub proof fn law_saw_sounds<A: Arithmetic>(
    ar: A,
    sample_rate: u32,
    params: Seq<u32>,
    chunk_index: u128,
    is_pressed: bool,
    out: Seq<u32>,
    i: int,
)
    requires
        sounds_like(
            ar,
            GeneratorDefinition::DetunedSaw,
            sample_rate,
            params,
            chunk_index,
            is_pressed,
            out,
        ),
        (chunk_index as usize) * out.len() + (out.len() - 1) <= usize::MAX,
        0 <= i < out.len(),
    ensures
        stands_for(
            ar,
            out[i],
            |m: Reading|
                {
                    let t = seconds(chunk_index as usize, out.len() as int, i, sample_rate);
                    let sway = (m.sin)(
                        t * if i % 2 == 0 {
                            30 as real
                        } else {
                            40 as real
                        },
                    );
                    let phase = t * (m.word)(params[0]) + 3 as real * sway / 10 as real;
                    let dying = if is_pressed {
                        1 as real
                    } else {
                        (m.exp)(-(m.fract)(t) * (64 as real - 63 as real * (m.word)(params[2])))
                    };
                    (2 as real * (m.fract)(phase) - 1 as real) * (m.word)(params[1]) * dying
                },
        ),
{
    let c = out.len() as int;
    let start = (chunk_index as usize) * c;
    assert(start >= 0) by (nonlinear_arith)
        requires
            start == (chunk_index as usize) * c,
            c >= 0,
    ;
    let frame = (start + i) / 2;
    let e = saw_sample(instant(frame, sample_rate), i % 2 == 0, is_pressed, params);
    assert(evaluates(ar, e, out[i]));
    assert forall|m: Reading| fair(m) implies #[trigger] value(m, e) == ({
        let t = seconds(chunk_index as usize, c, i, sample_rate);
        let sway = (m.sin)(
            t * if i % 2 == 0 {
                30 as real
            } else {
                40 as real
            },
        );
        let phase = t * (m.word)(params[0]) + 3 as real * sway / 10 as real;
        let dying = if is_pressed {
            1 as real
        } else {
            (m.exp)(-(m.fract)(t) * (64 as real - 63 as real * (m.word)(params[2])))
        };
        (2 as real * (m.fract)(phase) - 1 as real) * (m.word)(params[1]) * dying
    }) by {
        reveal_with_fuel(value, 10);
        let t = seconds(chunk_index as usize, c, i, sample_rate);
        let rate = if i % 2 == 0 {
            30 as real
        } else {
            40 as real
        };
        let w = (m.word)(
            if i % 2 == 0 {
                THIRTY
            } else {
                FORTY
            },
        );
        lemma_scaled(t, w, rate);
        lemma_scaled(t, rate, rate);
        let sway = (m.sin)(t * rate);
        let tenths = (m.word)(THREE_TENTHS);
        assert(sway * tenths == 3 as real * sway / 10 as real) by (nonlinear_arith)
            requires
                10 as real * tenths == 3 as real,
        ;
        let phase = t * (m.word)(params[0]) + 3 as real * sway / 10 as real;
        lemma_scaled((m.fract)(phase), (m.word)(TWO), 2 as real);
        lemma_scaled((m.word)(params[2]), (m.word)(SIXTY_THREE), 63 as real);
        let base = (2 as real * (m.fract)(phase) - 1 as real) * (m.word)(params[1]);
        lemma_scaled(base, (m.word)(ONE), 1 as real);
        lemma_scaled(base, 1 as real, 1 as real);
    }
}

/// What the noise of a chunk is made of up to sample `i`: the number of the
/// chunk, then for each sample its index and a byte that is 1 on the left.
pub open spec fn hashed(writes: Seq<Seq<u8>>, chunk_index: u128, i: int) -> bool {
    &&& writes.len() == 2 * i + 3
    &&& native_bytes(chunk_index as int, 16, writes[0])
    &&& forall|k: int|
        0 <= k <= i ==> native_bytes(k, usize_width(), #[trigger] writes[2 * k + 1])
    &&& forall|k: int|
        0 <= k <= i ==> #[trigger] writes[2 * k + 2] == seq![
            if k % 2 == 0 {
                1u8
            } else {
                0u8
            },
        ]
}

/// The noise of a held key is the hash of the chunk's number and of all samples
/// so far, spread over the range from -1 to 1, at the volume. Once the key is up
/// it is silent.
pub proof fn law_noise_sounds<A: Arithmetic>(
    ar: A,
    sample_rate: u32,
    params: Seq<u32>,
    chunk_index: u128,
    is_pressed: bool,
    out: Seq<u32>,
    i: int,
)
    requires
        sounds_like(
            ar,
            GeneratorDefinition::WhiteNoise,
            sample_rate,
            params,
            chunk_index,
            is_pressed,
            out,
        ),
        0 <= i < out.len(),
    ensures
        !is_pressed ==> out[i] == ZERO,
        is_pressed ==> exists|writes: Seq<Seq<u8>>|
            #[trigger] hashed(writes, chunk_index, i) && stands_for(
                ar,
                out[i],
                |m: Reading|
                    (2 as real * (DefaultHasher::spec_finish(writes) as real
                        / 0x1_0000_0000_0000_0000int as real) - 1 as real) * (m.word)(params[1]),
            ),
{
    if is_pressed {
        let (chunk_bytes, index_bytes) = choose|chunk_bytes: Seq<u8>, index_bytes: Seq<Seq<u8>>|
            native_bytes(chunk_index as int, 16, chunk_bytes) && #[trigger] noise_from(
                ar,
                params,
                chunk_bytes,
                index_bytes,
                out,
            );
        let so_far = index_bytes.take(i + 1);
        let writes = noise_writes(chunk_bytes, so_far);
        lemma_noise_writes(chunk_bytes, so_far);
        assert forall|k: int| 0 <= k <= i implies native_bytes(
            k,
            usize_width(),
            #[trigger] writes[2 * k + 1],
        ) by {
            assert(writes[2 * k + 1] == so_far[k]);
            assert(so_far[k] == index_bytes[k]);
        }
        let e = noise_sample(DefaultHasher::spec_finish(writes), params);
        assert(evaluates(ar, e, out[i]));
        assert(hashed(writes, chunk_index, i));
        assert forall|m: Reading| fair(m) implies #[trigger] value(m, e) == (2 as real * (
        DefaultHasher::spec_finish(writes) as real / 0x1_0000_0000_0000_0000int as real)
            - 1 as real) * (m.word)(params[1]) by {
            reveal_with_fuel(value, 8);
            let x = DefaultHasher::spec_finish(writes) as real
                / 0x1_0000_0000_0000_0000int as real;
            lemma_scaled(x, (m.word)(TWO), 2 as real);
        }
    }
}

proof fn lemma_noise_writes(chunk_bytes: Seq<u8>, index_bytes: Seq<Seq<u8>>)
    ensures
        ({
            let writes = noise_writes(chunk_bytes, index_bytes);
            &&& writes.len() == 2 * index_bytes.len() + 1
            &&& writes[0] == chunk_bytes
            &&& forall|k: int|
                0 <= k < index_bytes.len() ==> #[trigger] writes[2 * k + 1] == index_bytes[k]
            &&& forall|k: int|
                0 <= k < index_bytes.len() ==> #[trigger] writes[2 * k + 2] == seq![
                    if k % 2 == 0 {
                        1u8
                    } else {
                        0u8
                    },
                ]
        }),
    decreases index_bytes.len(),
{
    if index_bytes.len() > 0 {
        let n = index_bytes.len() as int;
        let shorter = index_bytes.drop_last();
        lemma_noise_writes(chunk_bytes, shorter);
        let before = noise_writes(chunk_bytes, shorter);
        let writes = noise_writes(chunk_bytes, index_bytes);
        assert forall|k: int| 0 <= k < n implies #[trigger] writes[2 * k + 1] == index_bytes[k] by {
            if k < n - 1 {
                assert(writes[2 * k + 1] == before[2 * k + 1]);
                assert(shorter[k] == index_bytes[k]);
            }
        }
        assert forall|k: int| 0 <= k < n implies #[trigger] writes[2 * k + 2] == seq![
            if k % 2 == 0 {
                1u8
            } else {
                0u8
            },
        ] by {
            if k < n - 1 {
                assert(writes[2 * k + 2] == before[2 * k + 2]);
            }
        }
    }
}

// Exact operations

/// The operations of `ar` are exact in a reading of the words: each gives a word
/// that stands for the exact result.
pub open spec fn faithful<A: Arithmetic>(ar: A, m: Reading) -> bool {
    &&& forall|n: u64, r: u32| #[trigger]
        call_ensures(A::from_natural, (&ar, n), r) ==> (m.word)(r) == n as real
    &&& forall|n: i32, r: u32| #[trigger]
        call_ensures(A::from_integer, (&ar, n), r) ==> (m.word)(r) == n as real
    &&& forall|a: u32, r: u32| #[trigger]
        call_ensures(A::neg, (&ar, a), r) ==> (m.word)(r) == -(m.word)(a)
    &&& forall|a: u32, r: u32| #[trigger]
        call_ensures(A::sin, (&ar, a), r) ==> (m.word)(r) == (m.sin)((m.word)(a))
    &&& forall|a: u32, r: u32| #[trigger]
        call_ensures(A::exp, (&ar, a), r) ==> (m.word)(r) == (m.exp)((m.word)(a))
    &&& forall|a: u32, r: u32| #[trigger]
        call_ensures(A::fract, (&ar, a), r) ==> (m.word)(r) == (m.fract)((m.word)(a))
    &&& forall|a: u32, b: u32, r: u32| #[trigger]
        call_ensures(A::plus, (&ar, a, b), r) ==> (m.word)(r) == (m.word)(a) + (m.word)(b)
    &&& forall|a: u32, b: u32, r: u32| #[trigger]
        call_ensures(A::minus, (&ar, a, b), r) ==> (m.word)(r) == (m.word)(a) - (m.word)(b)
    &&& forall|a: u32, b: u32, r: u32| #[trigger]
        call_ensures(A::times, (&ar, a, b), r) ==> (m.word)(r) == (m.word)(a) * (m.word)(b)
    &&& forall|a: u32, b: u32, r: u32| #[trigger]
        call_ensures(A::over, (&ar, a, b), r) ==> (m.word)(r) == (m.word)(a) / (m.word)(b)
    &&& forall|a: u32, b: u32, r: u32| #[trigger]
        call_ensures(A::max, (&ar, a, b), r) ==> (m.word)(r) == if (m.word)(a) >= (m.word)(b) {
            (m.word)(a)
        } else {
            (m.word)(b)
        }
    &&& forall|a: u32, b: u32, r: u32| #[trigger]
        call_ensures(A::powf, (&ar, a, b), r) ==> (m.word)(r) == (m.powf)(
            (m.word)(a),
            (m.word)(b),
        )
    &&& forall|a: u32, n: i32, r: u32| #[trigger]
        call_ensures(A::powi, (&ar, a, n), r) ==> (m.word)(r) == (m.powi)((m.word)(a), n as int)
    &&& forall|a: u32, low: u32, high: u32, r: u32| #[trigger]
        call_ensures(A::clamp, (&ar, a, low, high), r) ==> (m.word)(r) == limit(
            (m.word)(a),
            (m.word)(low),
            (m.word)(high),
        )
    &&& forall|a: u32, b: u32, r: bool| #[trigger]
        call_ensures(A::less, (&ar, a, b), r) ==> r == ((m.word)(a) < (m.word)(b))
}

/// With exact operations, what is computed by a formula is what the formula says,
/// operation by operation.
pub proof fn law_formula_is_computed<A: Arithmetic>(ar: A, m: Reading, e: Expr, r: u32)
    requires
        faithful(ar, m),
        evaluates(ar, e, r),
    ensures
        (m.word)(r) == value(m, e),
    decreases e,
{
    match e {
        Expr::Word(_) | Expr::Natural(_) | Expr::Integer(_) => {},
        Expr::Neg(x) => {
            let a = choose|a: u32|
                evaluates(ar, *x, a) && #[trigger] call_ensures(A::neg, (&ar, a), r);
            law_formula_is_computed(ar, m, *x, a);
        },
        Expr::Sin(x) => {
            let a = choose|a: u32|
                evaluates(ar, *x, a) && #[trigger] call_ensures(A::sin, (&ar, a), r);
            law_formula_is_computed(ar, m, *x, a);
        },
        Expr::Exp(x) => {
            let a = choose|a: u32|
                evaluates(ar, *x, a) && #[trigger] call_ensures(A::exp, (&ar, a), r);
            law_formula_is_computed(ar, m, *x, a);
        },
        Expr::Fract(x) => {
            let a = choose|a: u32|
                evaluates(ar, *x, a) && #[trigger] call_ensures(A::fract, (&ar, a), r);
            law_formula_is_computed(ar, m, *x, a);
        },
        Expr::Plus(x, y) => {
            let (a, b) = choose|a: u32, b: u32|
                evaluates(ar, *x, a) && evaluates(ar, *y, b) && #[trigger] call_ensures(
                    A::plus,
                    (&ar, a, b),
                    r,
                );
            law_formula_is_computed(ar, m, *x, a);
            law_formula_is_computed(ar, m, *y, b);
        },
        Expr::Minus(x, y) => {
            let (a, b) = choose|a: u32, b: u32|
                evaluates(ar, *x, a) && evaluates(ar, *y, b) && #[trigger] call_ensures(
                    A::minus,
                    (&ar, a, b),
                    r,
                );
            law_formula_is_computed(ar, m, *x, a);
            law_formula_is_computed(ar, m, *y, b);
        },
        Expr::Times(x, y) => {
            let (a, b) = choose|a: u32, b: u32|
                evaluates(ar, *x, a) && evaluates(ar, *y, b) && #[trigger] call_ensures(
                    A::times,
                    (&ar, a, b),
                    r,
                );
            law_formula_is_computed(ar, m, *x, a);
            law_formula_is_computed(ar, m, *y, b);
        },
        Expr::Over(x, y) => {
            let (a, b) = choose|a: u32, b: u32|
                evaluates(ar, *x, a) && evaluates(ar, *y, b) && #[trigger] call_ensures(
                    A::over,
                    (&ar, a, b),
                    r,
                );
            law_formula_is_computed(ar, m, *x, a);
            law_formula_is_computed(ar, m, *y, b);
        },
        Expr::Max(x, y) => {
            let (a, b) = choose|a: u32, b: u32|
                evaluates(ar, *x, a) && evaluates(ar, *y, b) && #[trigger] call_ensures(
                    A::max,
                    (&ar, a, b),
                    r,
                );
            law_formula_is_computed(ar, m, *x, a);
            law_formula_is_computed(ar, m, *y, b);
        },
        Expr::Powf(x, y) => {
            let (a, b) = choose|a: u32, b: u32|
                evaluates(ar, *x, a) && evaluates(ar, *y, b) && #[trigger] call_ensures(
                    A::powf,
                    (&ar, a, b),
                    r,
                );
            law_formula_is_computed(ar, m, *x, a);
            law_formula_is_computed(ar, m, *y, b);
        },
        Expr::Powi(x, n) => {
            let a = choose|a: u32|
                evaluates(ar, *x, a) && #[trigger] call_ensures(A::powi, (&ar, a, n), r);
            law_formula_is_computed(ar, m, *x, a);
        },
        Expr::Clamp(x, low, high) => {
            let a = choose|a: u32|
                evaluates(ar, *x, a) && #[trigger] call_ensures(
                    A::clamp,
                    (&ar, a, low, high),
                    r,
                );
            law_formula_is_computed(ar, m, *x, a);
        },
        Expr::IfLess(x, y, yes, no) => {
            let (a, b, less) = choose|a: u32, b: u32, less: bool|
                {
                    &&& evaluates(ar, *x, a)
                    &&& evaluates(ar, *y, b)
                    &&& #[trigger] call_ensures(A::less, (&ar, a, b), less)
                    &&& if less {
                        evaluates(ar, *yes, r)
                    } else {
                        evaluates(ar, *no, r)
                    }
                };
            law_formula_is_computed(ar, m, *x, a);
            law_formula_is_computed(ar, m, *y, b);
            if less {
                law_formula_is_computed(ar, m, *yes, r);
            } else {
                law_formula_is_computed(ar, m, *no, r);
            }
        },
    }
}

/// With exact operations, a word that stands for a number is that number.
pub proof fn law_word_is_what_it_stands_for<A: Arithmetic>(
    ar: A,
    m: Reading,
    r: u32,
    v: spec_fn(Reading) -> real,
)
    requires
        faithful(ar, m),
        fair(m),
        stands_for(ar, r, v),
    ensures
        (m.word)(r) == v(m),
{
    let e = choose|e: Expr|
        #[trigger] evaluates(ar, e, r) && forall|m: Reading| fair(m) ==> #[trigger] value(m, e)
            == v(m);
    law_formula_is_computed(ar, m, e, r);
    assert(value(m, e) == v(m));
}

/// A whole number is counted from a formula by the one operation that cuts off
/// what is behind the decimal point.
pub proof fn law_count_cuts_off<A: Arithmetic>(ar: A, m: Reading, e: Expr, n: usize)
    requires
        faithful(ar, m),
        counts(ar, e, n),
    ensures
        exists|a: u32| #[trigger]
            call_ensures(A::to_natural, (&ar, a), n) && (m.word)(a) == value(m, e),
{
    let a = choose|a: u32|
        evaluates(ar, e, a) && #[trigger] call_ensures(A::to_natural, (&ar, a), n);
    law_formula_is_computed(ar, m, e, a);
}

} // verus!
