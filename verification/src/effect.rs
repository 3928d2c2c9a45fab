//! The effects that the mixed signal runs through.

use vstd::prelude::*;

use crate::arithmetic::{
    counts, evaluates, natural, word, Arithmetic, Expr, Term, HALF, MINUS_ONE, ONE, ONE_AND_HALF,
    QUARTER, SIXTY_FOUR, TWO, ZERO,
};

verus! {

/// The number of samples that a delay can reach back.
pub const BUFFER_SIZE: usize = 65536;

/// The number of parameters that an effect has room for.
pub const MAXIMUM_PARAM_INDEX: usize = 64;

/// 1/64
pub const ONE_SIXTY_FOURTH: u32 = 0x3c80_0000;

/// The effects there are.
#[derive(Clone, Copy, PartialEq, Eq, Structural, Debug)]
pub enum EffectDefinition {
    Delay,
    HardClip,
    Pan,
}

/// What an effect remembers between chunks.
#[derive(Clone, Copy)]
pub struct EffectData {
    pub params: [u32; MAXIMUM_PARAM_INDEX],
    pub buffer: [u32; BUFFER_SIZE],
    pub buffer_pointer: usize,
}

#[derive(Clone, Copy)]
pub struct Effect {
    pub definition: EffectDefinition,
    pub data: EffectData,
}

/// An effect as the contracts see it.
pub struct EffectView {
    pub definition: EffectDefinition,
    pub params: Seq<u32>,
    pub buffer: Seq<u32>,
    pub pointer: int,
}

impl View for Effect {
    type V = EffectView;

    open spec fn view(&self) -> EffectView {
        EffectView {
            definition: self.definition,
            params: self.data.params@,
            buffer: self.data.buffer@,
            pointer: self.data.buffer_pointer as int,
        }
    }
}

/// The parameters that an effect starts with.
pub open spec fn effect_defaults(definition: EffectDefinition) -> Seq<u32> {
    Seq::new(
        MAXIMUM_PARAM_INDEX as nat,
        |i: int|
            match definition {
                EffectDefinition::Delay => if i == 1 {
                    QUARTER
                } else {
                    ZERO
                },
                EffectDefinition::HardClip => if i == 0 {
                    ONE_SIXTY_FOURTH
                } else if i == 1 {
                    ONE
                } else {
                    ZERO
                },
                EffectDefinition::Pan => if i == 0 {
                    HALF
                } else {
                    ZERO
                },
            },
    )
}

/// An effect that has heard nothing yet.
pub open spec fn fresh_effect(definition: EffectDefinition) -> EffectView {
    EffectView {
        definition,
        params: effect_defaults(definition),
        buffer: Seq::new(BUFFER_SIZE as nat, |i: int| ZERO),
        pointer: 0,
    }
}

/// The number of samples in the loop of a delay of `t` frames.
pub open spec fn line_length(t: usize) -> int {
    if 2 * t <= 2 {
        2
    } else if 2 * t >= BUFFER_SIZE {
        BUFFER_SIZE as int
    } else {
        2 * t
    }
}

/// Where the delay writes after `k` samples round a loop of length `n`.
pub open spec fn pointer_after(pointer: int, n: int, k: int) -> int {
    if k == 0 {
        pointer
    } else {
        (pointer + k) % n
    }
}

/// The delay's buffer after the samples `out` were written to it.
pub open spec fn recorded(buffer: Seq<u32>, pointer: int, n: int, out: Seq<u32>) -> Seq<u32>
    decreases out.len(),
{
    if out.len() == 0 {
        buffer
    } else {
        recorded(buffer, pointer, n, out.drop_last()).update(
            pointer_after(pointer, n, out.len() - 1),
            out.last(),
        )
    }
}

/// What the delay reads back for sample `i`: the oldest sample in the loop.
pub open spec fn echo(buffer: Seq<u32>, pointer: int, n: int, out: Seq<u32>, i: int) -> u32 {
    recorded(buffer, pointer, n, out.take(i))[(pointer_after(pointer, n, i) + 1) % n]
}

/// A sample with its echo added to it.
pub open spec fn delay_sample(input: u32, echo: u32, volume: u32) -> Expr {
    word(input).plus(word(echo).times(word(volume)))
}

/// `out` is `input` with the echo of a loop of length `n`.
pub open spec fn delayed<A: Arithmetic>(
    ar: A,
    volume: u32,
    n: int,
    buffer: Seq<u32>,
    pointer: int,
    input: Seq<u32>,
    out: Seq<u32>,
) -> bool {
    &&& out.len() == input.len()
    &&& forall|i: int|
        0 <= i < out.len() ==> evaluates(
            ar,
            delay_sample(input[i], echo(buffer, pointer, n, out, i), volume),
            #[trigger] out[i],
        )
}

/// A sample amplified, cut off at -1 and 1, and amplified again.
pub open spec fn clip_sample(input: u32, params: Seq<u32>) -> Expr {
    word(input).times(word(params[0])).times(word(SIXTY_FOUR)).clamp(MINUS_ONE, ONE).times(
        word(params[1]),
    )
}

/// How much of the left side stays on the left.
pub open spec fn left_to_left(pan: u32) -> Expr {
    word(pan).if_less(
        word(HALF),
        word(pan).plus(word(HALF)),
        word(TWO).minus(word(pan).times(word(TWO))),
    )
}

/// How much of the right side stays on the right.
pub open spec fn right_to_right(pan: u32) -> Expr {
    word(pan).if_less(
        word(HALF),
        word(pan).times(word(TWO)),
        word(ONE_AND_HALF).minus(word(pan)),
    )
}

/// How much of the right side goes to the left.
pub open spec fn right_to_left(pan: u32) -> Expr {
    word(HALF).minus(word(pan)).max(word(ZERO))
}

/// How much of the left side goes to the right.
pub open spec fn left_to_right(pan: u32) -> Expr {
    word(pan).minus(word(HALF)).max(word(ZERO))
}

/// A frame's left sample after panning.
pub open spec fn pan_left(left: u32, right: u32, pan: u32) -> Expr {
    word(left).times(left_to_left(pan)).plus(word(right).times(right_to_left(pan)))
}

/// A frame's right sample after panning.
pub open spec fn pan_right(left: u32, right: u32, pan: u32) -> Expr {
    word(left).times(left_to_right(pan)).plus(word(right).times(right_to_right(pan)))
}

/// `out` is `input` panned, frame by frame. A last sample without a partner is
/// silent.
pub open spec fn panned<A: Arithmetic>(ar: A, pan: u32, input: Seq<u32>, out: Seq<u32>) -> bool {
    &&& out.len() == input.len()
    &&& forall|k: int|
        0 <= k < out.len() ==> if k % 2 == 1 {
            evaluates(ar, pan_right(input[k - 1], input[k], pan), #[trigger] out[k])
        } else if k + 1 < out.len() {
            evaluates(ar, pan_left(input[k], input[k + 1], pan), out[k])
        } else {
            out[k] == ZERO
        }
}

/// Whether an effect can answer the chunk `input` with `out` and go from
/// `before` to `after`.
pub open spec fn effect_answers<A: Arithmetic>(
    ar: A,
    sample_rate: u32,
    before: EffectView,
    input: Seq<u32>,
    out: Seq<u32>,
    after: EffectView,
) -> bool {
    match before.definition {
        EffectDefinition::Delay => exists|t: usize|
            {
                let n = line_length(t);
                &&& #[trigger] counts(
                    ar,
                    word(before.params[1]).times(natural(sample_rate as int)),
                    t,
                )
                &&& delayed(ar, before.params[0], n, before.buffer, before.pointer, input, out)
                &&& after == EffectView {
                    buffer: recorded(before.buffer, before.pointer, n, out),
                    pointer: pointer_after(before.pointer, n, out.len() as int),
                    ..before
                }
            },
        EffectDefinition::HardClip => {
            &&& out.len() == input.len()
            &&& forall|i: int|
                0 <= i < out.len() ==> evaluates(
                    ar,
                    clip_sample(input[i], before.params),
                    #[trigger] out[i],
                )
            &&& after == before
        },
        EffectDefinition::Pan => panned(ar, before.params[0], input, out) && after == before,
    }
}

/// Adds the echo to a chunk.
pub fn delay<A: Arithmetic, const CHUNK: usize>(
    ar: &A,
    sample_rate: u32,
    params: [u32; MAXIMUM_PARAM_INDEX],
    buffer: &mut [u32; BUFFER_SIZE],
    pointer: &mut usize,
    input: &[u32; CHUNK],
) -> (out: [u32; CHUNK])
    requires
        *old(pointer) < BUFFER_SIZE,
    ensures
        *final(pointer) < BUFFER_SIZE,
        exists|t: usize|
            {
                let n = line_length(t);
                &&& #[trigger] counts(*ar, word(params@[1]).times(natural(sample_rate as int)), t)
                &&& delayed(*ar, params@[0], n, old(buffer)@, *old(pointer) as int, input@, out@)
                &&& final(buffer)@ == recorded(old(buffer)@, *old(pointer) as int, n, out@)
                &&& *final(pointer) == pointer_after(*old(pointer) as int, n, CHUNK as int)
            },
{
    let mut result: [u32; CHUNK] = [ZERO; CHUNK];
    let time: usize = Term::word(ar, params[1]).times(
        ar,
        Term::natural(ar, sample_rate as u64),
    ).count(ar);
    // twice the time, at least 2 and at most the size of the buffer
    let n: usize = if time <= 1 {
        2
    } else if time >= BUFFER_SIZE / 2 {
        BUFFER_SIZE
    } else {
        2 * time
    };
    let ghost buffer0 = buffer@;
    let ghost pointer0 = *pointer as int;
    for i in 0..CHUNK
        invariant
            n == line_length(time),
            2 <= n <= BUFFER_SIZE,
            0 <= pointer0 < BUFFER_SIZE,
            *pointer < BUFFER_SIZE,
            *pointer == pointer_after(pointer0, n as int, i as int),
            buffer@ == recorded(buffer0, pointer0, n as int, result@.take(i as int)),
            delayed(
                *ar,
                params@[0],
                n as int,
                buffer0,
                pointer0,
                input@.take(i as int),
                result@.take(i as int),
            ),
    {
        let delay_sound: u32 = buffer[(*pointer + 1) % n];
        let accum: Term = Term::word(ar, input[i]).plus(
            ar,
            Term::word(ar, delay_sound).times(ar, Term::word(ar, params[0])),
        );
        let ghost shorter = result@.take(i as int);
        buffer[*pointer] = accum.word;
        *pointer = (*pointer + 1) % n;
        result[i] = accum.word;
        proof {
            let longer = result@.take(i + 1);
            assert(longer == shorter.push(accum.word));
            assert(longer.drop_last() == shorter);
            assert(longer.take(i as int) == shorter);
            assert forall|j: int| 0 <= j < longer.len() implies evaluates(
                *ar,
                delay_sample(
                    input@.take(i + 1)[j],
                    echo(buffer0, pointer0, n as int, longer, j),
                    params@[0],
                ),
                #[trigger] longer[j],
            ) by {
                if j < i {
                    assert(longer.take(j) == shorter.take(j));
                    assert(longer[j] == shorter[j]);
                    assert(input@.take(i + 1)[j] == input@.take(i as int)[j]);
                }
            }
            lemma_step_round(pointer0, n as int, i as int);
        }
    }
    assert(result@.take(CHUNK as int) == result@);
    assert(input@.take(CHUNK as int) == input@);
    result
}

/// One more step round the loop.
pub proof fn lemma_step_round(pointer: int, n: int, k: int)
    requires
        n > 0,
        k >= 0,
    ensures
        (pointer_after(pointer, n, k) + 1) % n == pointer_after(pointer, n, k + 1),
{
    if k > 0 {
        vstd::arithmetic::div_mod::lemma_add_mod_noop(pointer + k, 1, n);
        vstd::arithmetic::div_mod::lemma_mod_twice(pointer + k, n);
        vstd::arithmetic::div_mod::lemma_add_mod_noop((pointer + k) % n, 1, n);
    }
}

/// Amplifies a chunk and cuts it off.
pub fn hard_clip<A: Arithmetic, const CHUNK: usize>(
    ar: &A,
    params: [u32; MAXIMUM_PARAM_INDEX],
    input: &[u32; CHUNK],
) -> (out: [u32; CHUNK])
    ensures
        forall|i: int|
            0 <= i < CHUNK ==> evaluates(*ar, clip_sample(input@[i], params@), #[trigger] out@[i]),
{
    let mut result: [u32; CHUNK] = [ZERO; CHUNK];
    for i in 0..CHUNK
        invariant
            forall|j: int|
                0 <= j < i ==> evaluates(
                    *ar,
                    clip_sample(input@[j], params@),
                    #[trigger] result@[j],
                ),
    {
        let amplified: Term = Term::word(ar, input[i]).times(ar, Term::word(ar, params[0])).times(
            ar,
            Term::word(ar, SIXTY_FOUR),
        );
        let val: Term = amplified.clamp(ar, MINUS_ONE, ONE).times(ar, Term::word(ar, params[1]));
        result[i] = val.word;
    }
    result
}

/// Moves a chunk between left and right.
pub fn pan<A: Arithmetic, const CHUNK: usize>(
    ar: &A,
    params: [u32; MAXIMUM_PARAM_INDEX],
    input: &[u32; CHUNK],
) -> (out: [u32; CHUNK])
    ensures
        panned(*ar, params@[0], input@, out@),
{
    let mut result: [u32; CHUNK] = [ZERO; CHUNK];
    let position: Term = Term::word(ar, params[0]);
    let half: Term = Term::word(ar, HALF);
    let direct_left: Term = position.if_less(
        ar,
        half,
        position.plus(ar, half),
        Term::word(ar, TWO).minus(ar, position.times(ar, Term::word(ar, TWO))),
    );
    let direct_right: Term = position.if_less(
        ar,
        half,
        position.times(ar, Term::word(ar, TWO)),
        Term::word(ar, ONE_AND_HALF).minus(ar, position),
    );
    let opposite_left: Term = half.minus(ar, position).max(ar, Term::word(ar, ZERO));
    let opposite_right: Term = position.minus(ar, half).max(ar, Term::word(ar, ZERO));
    for i in 0..(CHUNK / 2)
        invariant
            direct_left.holds(*ar),
            direct_left.expr@ == left_to_left(params@[0]),
            direct_right.holds(*ar),
            direct_right.expr@ == right_to_right(params@[0]),
            opposite_left.holds(*ar),
            opposite_left.expr@ == right_to_left(params@[0]),
            opposite_right.holds(*ar),
            opposite_right.expr@ == left_to_right(params@[0]),
            forall|k: int|
                0 <= k < 2 * i ==> if k % 2 == 1 {
                    evaluates(
                        *ar,
                        pan_right(input@[k - 1], input@[k], params@[0]),
                        #[trigger] result@[k],
                    )
                } else {
                    evaluates(*ar, pan_left(input@[k], input@[k + 1], params@[0]), result@[k])
                },
            forall|k: int| 2 * i <= k < CHUNK ==> #[trigger] result@[k] == ZERO,
    {
        let left: Term = Term::word(ar, input[i * 2]);
        let right: Term = Term::word(ar, input[i * 2 + 1]);
        let new_left: Term = left.times(ar, direct_left).plus(ar, right.times(ar, opposite_left));
        let new_right: Term = left.times(ar, opposite_right).plus(
            ar,
            right.times(ar, direct_right),
        );
        result[i * 2] = new_left.word;
        result[i * 2 + 1] = new_right.word;
    }
    result
}

impl EffectDefinition {
    pub open spec fn spec_title(self) -> &'static str {
        match self {
            EffectDefinition::Delay => "delay",
            EffectDefinition::HardClip => "hard clip",
            EffectDefinition::Pan => "panning",
        }
    }

    pub fn title(self) -> (r: &'static str)
        ensures
            r == self.spec_title(),
    {
        match self {
            EffectDefinition::Delay => "delay",
            EffectDefinition::HardClip => "hard clip",
            EffectDefinition::Pan => "panning",
        }
    }

    /// The name of a parameter; "" where there is none.
    pub open spec fn spec_param_name(self, i: int) -> &'static str {
        match self {
            EffectDefinition::Delay => if i == 0 {
                "volume"
            } else if i == 1 {
                "time"
            } else {
                ""
            },
            EffectDefinition::HardClip => if i == 0 {
                "pregain"
            } else if i == 1 {
                "postgain"
            } else {
                ""
            },
            EffectDefinition::Pan => if i == 0 {
                "pan"
            } else {
                ""
            },
        }
    }

    pub fn param_names(self) -> (r: [&'static str; MAXIMUM_PARAM_INDEX])
        ensures
            forall|i: int|
                0 <= i < MAXIMUM_PARAM_INDEX ==> #[trigger] r@[i] == self.spec_param_name(i),
    {
        let mut a: [&'static str; MAXIMUM_PARAM_INDEX] = [""; MAXIMUM_PARAM_INDEX];
        match self {
            EffectDefinition::Delay => {
                a[0] = "volume";
                a[1] = "time";
            },
            EffectDefinition::HardClip => {
                a[0] = "pregain";
                a[1] = "postgain";
            },
            EffectDefinition::Pan => {
                a[0] = "pan";
            },
        }
        a
    }

    pub open spec fn spec_param_count(self) -> usize {
        match self {
            EffectDefinition::Delay => 2,
            EffectDefinition::HardClip => 2,
            EffectDefinition::Pan => 1,
        }
    }

    pub fn param_count(self) -> (r: usize)
        ensures
            r == self.spec_param_count(),
    {
        match self {
            EffectDefinition::Delay => 2,
            EffectDefinition::HardClip => 2,
            EffectDefinition::Pan => 1,
        }
    }

    /// What a new effect starts with.
    pub fn init(self) -> (r: EffectData)
        ensures
            (Effect { definition: self, data: r })@ == fresh_effect(self),
    {
        let mut a: [u32; MAXIMUM_PARAM_INDEX] = [ZERO; MAXIMUM_PARAM_INDEX];
        match self {
            EffectDefinition::Delay => {
                a[1] = QUARTER;
            },
            EffectDefinition::HardClip => {
                a[0] = ONE_SIXTY_FOURTH;
                a[1] = ONE;
            },
            EffectDefinition::Pan => {
                a[0] = HALF;
            },
        }
        let buffer: [u32; BUFFER_SIZE] = [ZERO; BUFFER_SIZE];
        assert(a@ == effect_defaults(self));
        assert(buffer@ == fresh_effect(self).buffer);
        EffectData { params: a, buffer, buffer_pointer: 0 }
    }
}

impl Effect {
    /// The delay writes inside its buffer.
    pub open spec fn wf(self) -> bool {
        self.data.buffer_pointer < BUFFER_SIZE
    }

    /// Answers a chunk.
    pub fn apply<A: Arithmetic, const CHUNK: usize>(
        &mut self,
        ar: &A,
        sample_rate: u32,
        input: &[u32; CHUNK],
    ) -> (out: [u32; CHUNK])
        requires
            old(self).wf(),
        ensures
            final(self).wf(),
            effect_answers(*ar, sample_rate, old(self)@, input@, out@, final(self)@),
    {
        match self.definition {
            EffectDefinition::Delay => delay::<A, CHUNK>(
                ar,
                sample_rate,
                self.data.params,
                &mut self.data.buffer,
                &mut self.data.buffer_pointer,
                input,
            ),
            EffectDefinition::HardClip => hard_clip::<A, CHUNK>(ar, self.data.params, input),
            EffectDefinition::Pan => pan::<A, CHUNK>(ar, self.data.params, input),
        }
    }
}

} // verus!
