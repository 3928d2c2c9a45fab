//! The sound sources: what a held or released key sounds like.

use std::collections::hash_map::DefaultHasher;
use std::hash::Hasher;

use vstd::prelude::*;
use vstd::arithmetic::power::pow;
use vstd::std_specs::hash::DefaultHasherAdditionalSpecFns;

use crate::arithmetic::{
    evaluates, natural, word, Arithmetic, Expr, Term, HALF, ONE, QUARTER, SIXTY_FOUR, TWO, ZERO,
};

verus! {

/// The number of parameters that a generator has room for.
pub const MAXIMUM_PARAM_INDEX: usize = 64;

/// 0.3
pub const THREE_TENTHS: u32 = 0x3e99_999a;
/// 0.6
pub const SIX_TENTHS: u32 = 0x3f19_999a;
/// The full turn, 6.2831855
pub const TAU: u32 = 0x40c9_0fdb;
/// 30.0
pub const THIRTY: u32 = 0x41f0_0000;
/// 40.0
pub const FORTY: u32 = 0x4220_0000;
/// 63.0
pub const SIXTY_THREE: u32 = 0x427c_0000;
/// 440.0
pub const CONCERT_PITCH: u32 = 0x43dc_0000;
/// The greatest `u64`, rounded: 2 to the power 64.
pub const HASH_RANGE: u32 = 0x5f80_0000;

/// The generators there are. `params[0]` of each is the pitch.
#[derive(Clone, Copy, PartialEq, Eq, Structural, Debug)]
pub enum GeneratorDefinition {
    SineOsc,
    DetunedSaw,
    WhiteNoise,
}

/// What a generator remembers between chunks.
#[derive(Clone, Copy)]
pub struct GeneratorData {
    pub params: [u32; MAXIMUM_PARAM_INDEX],
}

#[derive(Clone, Copy)]
pub struct Generator {
    pub definition: GeneratorDefinition,
    pub data: GeneratorData,
}

/// A generator as the contracts see it.
pub struct GeneratorView {
    pub definition: GeneratorDefinition,
    pub params: Seq<u32>,
}

impl View for Generator {
    type V = GeneratorView;

    open spec fn view(&self) -> GeneratorView {
        GeneratorView { definition: self.definition, params: self.data.params@ }
    }
}

/// The name of each parameter; "" where there is none.
pub open spec fn generator_param_name(definition: GeneratorDefinition, i: int) -> Seq<char> {
    match definition {
        GeneratorDefinition::SineOsc | GeneratorDefinition::DetunedSaw => if i == 0 {
            "pitch"@
        } else if i == 1 {
            "volume"@
        } else if i == 2 {
            "decay"@
        } else {
            ""@
        },
        GeneratorDefinition::WhiteNoise => if i == 0 {
            "N/A"@
        } else if i == 1 {
            "volume"@
        } else {
            ""@
        },
    }
}

/// The parameters that a generator starts with.
pub open spec fn generator_defaults(definition: GeneratorDefinition) -> Seq<u32> {
    Seq::new(
        MAXIMUM_PARAM_INDEX as nat,
        |i: int|
            if i == 0 {
                CONCERT_PITCH
            } else if i == 1 {
                if definition == GeneratorDefinition::SineOsc {
                    HALF
                } else {
                    QUARTER
                }
            } else if i == 2 {
                SIX_TENTHS
            } else {
                ZERO
            },
    )
}

/// The point in time of frame `frame`, in seconds.
pub open spec fn instant(frame: int, sample_rate: u32) -> Expr {
    natural(frame).over(natural(sample_rate as int))
}

/// How fast a note dies away: from 64 at parameter 0 to 1 at parameter 1.
pub open spec fn decay(params: Seq<u32>) -> Expr {
    word(SIXTY_FOUR).minus(word(params[2]).times(word(SIXTY_THREE)))
}

/// The factor by which a note has died away within the second of `t`.
pub open spec fn fading(t: Expr, params: Seq<u32>) -> Expr {
    t.fract().neg().times(decay(params)).exp()
}

/// A sine of the given pitch that dies away once per second.
pub open spec fn sine_sample(t: Expr, params: Seq<u32>) -> Expr {
    t.times(word(params[0])).times(word(TAU)).sin().times(
        fading(t, params).times(word(params[1])),
    )
}

/// A saw whose phase sways, differently on the left and on the right. It dies
/// away once the key is up.
pub open spec fn saw_sample(t: Expr, is_left: bool, is_pressed: bool, params: Seq<u32>) -> Expr {
    let sway = t.times(
        word(
            if is_left {
                THIRTY
            } else {
                FORTY
            },
        ),
    ).sin();
    let saw = t.times(word(params[0])).plus(sway.times(word(THREE_TENTHS))).fract().times(
        word(TWO),
    ).minus(word(ONE));
    saw.times(word(params[1])).times(
        if is_pressed {
            word(ONE)
        } else {
            fading(t, params)
        },
    )
}

/// A hash value, scaled to the range from -1 to 1, at the given volume.
pub open spec fn noise_sample(hash: u64, params: Seq<u32>) -> Expr {
    Expr::Natural(hash).over(word(HASH_RANGE)).times(word(TWO)).minus(word(ONE)).times(
        word(params[1]),
    )
}

/// The samples of a chunk alternate between left and right, left first.
pub open spec fn on_left(i: int) -> bool {
    i % 2 == 0
}

/// The frame that sample `i` of chunk `chunk_index` belongs to.
pub open spec fn frame_of(chunk_index: u128, chunk: int, i: int) -> int {
    ((chunk_index as usize) * chunk + i) / 2
}

/// The `width` bytes of `v`, least significant first.
pub open spec fn little_endian(v: int, width: nat) -> Seq<u8> {
    Seq::new(width, |k: int| ((v / pow(256, k as nat)) % 256) as u8)
}

/// Whether `bytes` is `v` in the byte order of some machine.
pub open spec fn native_bytes(v: int, width: nat, bytes: Seq<u8>) -> bool {
    bytes == little_endian(v, width) || bytes == little_endian(v, width).reverse()
}

/// The number of bytes of a `usize`.
pub open spec fn usize_width() -> nat {
    (usize::BITS / 8) as nat
}

/// What is hashed for the noise: the chunk's number, then for each sample its
/// index and its side.
pub open spec fn noise_writes(chunk_bytes: Seq<u8>, index_bytes: Seq<Seq<u8>>) -> Seq<Seq<u8>>
    decreases index_bytes.len(),
{
    if index_bytes.len() == 0 {
        seq![chunk_bytes]
    } else {
        noise_writes(chunk_bytes, index_bytes.drop_last()).push(index_bytes.last()).push(
            seq![
                if on_left(index_bytes.len() - 1) {
                    1u8
                } else {
                    0u8
                },
            ],
        )
    }
}

/// `out` is noise at the given volume: sample `i` is made of the hash of all
/// that was written up to `i`.
pub open spec fn noise_from<A: Arithmetic>(
    ar: A,
    params: Seq<u32>,
    chunk_bytes: Seq<u8>,
    index_bytes: Seq<Seq<u8>>,
    out: Seq<u32>,
) -> bool {
    &&& out.len() == index_bytes.len()
    &&& forall|i: int|
        0 <= i < index_bytes.len() ==> native_bytes(i, usize_width(), #[trigger] index_bytes[i])
    &&& forall|i: int|
        0 <= i < out.len() ==> evaluates(
            ar,
            noise_sample(
                DefaultHasher::spec_finish(noise_writes(chunk_bytes, index_bytes.take(i + 1))),
                params,
            ),
            #[trigger] out[i],
        )
}

/// Whether `out` can be the chunk `chunk_index` of a generator.
pub open spec fn sounds_like<A: Arithmetic>(
    ar: A,
    definition: GeneratorDefinition,
    sample_rate: u32,
    params: Seq<u32>,
    chunk_index: u128,
    is_pressed: bool,
    out: Seq<u32>,
) -> bool {
    match definition {
        GeneratorDefinition::SineOsc => if is_pressed {
            forall|i: int|
                0 <= i < out.len() ==> evaluates(
                    ar,
                    sine_sample(
                        instant(frame_of(chunk_index, out.len() as int, i), sample_rate),
                        params,
                    ),
                    #[trigger] out[i],
                )
        } else {
            forall|i: int| 0 <= i < out.len() ==> #[trigger] out[i] == ZERO
        },
        GeneratorDefinition::DetunedSaw => forall|i: int|
            0 <= i < out.len() ==> evaluates(
                ar,
                saw_sample(
                    instant(frame_of(chunk_index, out.len() as int, i), sample_rate),
                    on_left(i),
                    is_pressed,
                    params,
                ),
                #[trigger] out[i],
            ),
        GeneratorDefinition::WhiteNoise => if is_pressed {
            exists|chunk_bytes: Seq<u8>, index_bytes: Seq<Seq<u8>>|
                native_bytes(chunk_index as int, 16, chunk_bytes) && #[trigger] noise_from(
                    ar,
                    params,
                    chunk_bytes,
                    index_bytes,
                    out,
                )
        } else {
            forall|i: int| 0 <= i < out.len() ==> #[trigger] out[i] == ZERO
        },
    }
}

/// Whether a generator has nothing more to say at chunk `chunk_index`.
pub open spec fn is_finished(
    definition: GeneratorDefinition,
    sample_rate: u32,
    chunk: int,
    chunk_index: u128,
    is_pressed: bool,
) -> bool {
    match definition {
        GeneratorDefinition::SineOsc => chunk_index * chunk > sample_rate,
        GeneratorDefinition::DetunedSaw => !is_pressed && chunk_index * chunk > sample_rate,
        GeneratorDefinition::WhiteNoise => !is_pressed,
    }
}

/// The count of samples up to the end of chunk `chunk_index` stays within the
/// limits of the machine, as far as the generator counts them.
pub open spec fn countable(
    definition: GeneratorDefinition,
    chunk: int,
    chunk_index: u128,
    is_pressed: bool,
) -> bool {
    let samples = (chunk_index as usize) * chunk + chunk - 1 <= usize::MAX;
    match definition {
        GeneratorDefinition::SineOsc => chunk_index * chunk <= u128::MAX && (is_pressed ==> samples),
        GeneratorDefinition::DetunedSaw => (!is_pressed ==> chunk_index * chunk <= u128::MAX)
            && samples,
        GeneratorDefinition::WhiteNoise => true,
    }
}

/// `u128::to_ne_bytes`: the sixteen bytes of the number in the byte order of
/// the machine, which is least significant first or last.
#[verifier::external_body]
fn u128_to_ne_bytes(v: u128) -> (r: [u8; 16])
    ensures
        native_bytes(v as int, 16, r@),
{
    v.to_ne_bytes()
}

/// `usize::to_ne_bytes`: the bytes of the number in the byte order of the
/// machine, which is least significant first or last.
#[verifier::external_body]
fn usize_to_ne_bytes(v: usize) -> (r: Vec<u8>)
    ensures
        native_bytes(v as int, usize_width(), r@),
{
    v.to_ne_bytes().to_vec()
}

/// The time of a sample.
fn instant_of<A: Arithmetic>(ar: &A, sample_index: usize, sample_rate: u32) -> (t: Term)
    ensures
        t.holds(*ar),
        t.expr@ == instant((sample_index / 2) as int, sample_rate),
{
    let frame: usize = sample_index / 2;
    Term::natural(ar, frame as u64).over(ar, Term::natural(ar, sample_rate as u64))
}

/// The factor by which a note has died away.
fn fading_of<A: Arithmetic>(ar: &A, t: Term, params: [u32; MAXIMUM_PARAM_INDEX]) -> (r: Term)
    requires
        t.holds(*ar),
    ensures
        r.holds(*ar),
        r.expr@ == fading(t.expr@, params@),
{
    let decay: Term = Term::word(ar, SIXTY_FOUR).minus(
        ar,
        Term::word(ar, params[2]).times(ar, Term::word(ar, SIXTY_THREE)),
    );
    t.fract(ar).neg(ar).times(ar, decay).exp(ar)
}

/// The chunk of the sine generator, and whether it has finished.
pub fn sine_osc<A: Arithmetic, const CHUNK: usize>(
    ar: &A,
    sample_rate: u32,
    params: [u32; MAXIMUM_PARAM_INDEX],
    chunk_index: u128,
    is_pressed: bool,
) -> (r: ([u32; CHUNK], bool))
    requires
        countable(GeneratorDefinition::SineOsc, CHUNK as int, chunk_index, is_pressed),
    ensures
        sounds_like(
            *ar,
            GeneratorDefinition::SineOsc,
            sample_rate,
            params@,
            chunk_index,
            is_pressed,
            r.0@,
        ),
        r.1 == is_finished(
            GeneratorDefinition::SineOsc,
            sample_rate,
            CHUNK as int,
            chunk_index,
            is_pressed,
        ),
{
    let mut result: [u32; CHUNK] = [ZERO; CHUNK];
    if is_pressed {
        assert((chunk_index as usize) * CHUNK <= usize::MAX) by {
            if CHUNK == 0 {
                assert((chunk_index as usize) * CHUNK == 0) by (nonlinear_arith)
                    requires
                        CHUNK == 0,
                ;
            }
        }
        let start: usize = (chunk_index as usize) * CHUNK;
        for i in 0..CHUNK
            invariant
                start == (chunk_index as usize) * CHUNK,
                start + CHUNK - 1 <= usize::MAX,
                forall|j: int|
                    0 <= j < i ==> evaluates(
                        *ar,
                        sine_sample(
                            instant(frame_of(chunk_index, CHUNK as int, j), sample_rate),
                            params@,
                        ),
                        #[trigger] result@[j],
                    ),
        {
            let t: Term = instant_of(ar, start + i, sample_rate);
            let tone: Term = t.times(ar, Term::word(ar, params[0])).times(
                ar,
                Term::word(ar, TAU),
            ).sin(ar);
            let val: Term = tone.times(
                ar,
                fading_of(ar, t, params).times(ar, Term::word(ar, params[1])),
            );
            result[i] = val.word;
        }
    }
    (result, chunk_index * (CHUNK as u128) > (sample_rate as u128))
}

/// The chunk of the saw generator, and whether it has finished.
pub fn detuned_saw<A: Arithmetic, const CHUNK: usize>(
    ar: &A,
    sample_rate: u32,
    params: [u32; MAXIMUM_PARAM_INDEX],
    chunk_index: u128,
    is_pressed: bool,
) -> (r: ([u32; CHUNK], bool))
    requires
        countable(GeneratorDefinition::DetunedSaw, CHUNK as int, chunk_index, is_pressed),
    ensures
        sounds_like(
            *ar,
            GeneratorDefinition::DetunedSaw,
            sample_rate,
            params@,
            chunk_index,
            is_pressed,
            r.0@,
        ),
        r.1 == is_finished(
            GeneratorDefinition::DetunedSaw,
            sample_rate,
            CHUNK as int,
            chunk_index,
            is_pressed,
        ),
{
    let mut result: [u32; CHUNK] = [ZERO; CHUNK];
    let finished: bool = !is_pressed && chunk_index * (CHUNK as u128) > (sample_rate as u128);
    assert((chunk_index as usize) * CHUNK <= usize::MAX) by {
        if CHUNK == 0 {
            assert((chunk_index as usize) * CHUNK == 0) by (nonlinear_arith)
                requires
                    CHUNK == 0,
            ;
        }
    }
    let start: usize = (chunk_index as usize) * CHUNK;
    for i in 0..CHUNK
        invariant
            start == (chunk_index as usize) * CHUNK,
            start + CHUNK - 1 <= usize::MAX,
            forall|j: int|
                0 <= j < i ==> evaluates(
                    *ar,
                    saw_sample(
                        instant(frame_of(chunk_index, CHUNK as int, j), sample_rate),
                        on_left(j),
                        is_pressed,
                        params@,
                    ),
                    #[trigger] result@[j],
                ),
    {
        let is_left: bool = i % 2 == 0;
        let t: Term = instant_of(ar, start + i, sample_rate);
        let sway: Term = t.times(
            ar,
            Term::word(
                ar,
                if is_left {
                    THIRTY
                } else {
                    FORTY
                },
            ),
        ).sin(ar);
        let phase: Term = t.times(ar, Term::word(ar, params[0])).plus(
            ar,
            sway.times(ar, Term::word(ar, THREE_TENTHS)),
        );
        let saw: Term = phase.fract(ar).times(ar, Term::word(ar, TWO)).minus(
            ar,
            Term::word(ar, ONE),
        );
        let envelope: Term = if is_pressed {
            Term::word(ar, ONE)
        } else {
            fading_of(ar, t, params)
        };
        let val: Term = saw.times(ar, Term::word(ar, params[1])).times(ar, envelope);
        result[i] = val.word;
    }
    (result, finished)
}

/// The chunk of the noise generator, and whether it has finished.
pub fn white_noise<A: Arithmetic, const CHUNK: usize>(
    ar: &A,
    params: [u32; MAXIMUM_PARAM_INDEX],
    chunk_index: u128,
    is_pressed: bool,
) -> (r: ([u32; CHUNK], bool))
    ensures
        forall|sample_rate: u32|
            #[trigger] sounds_like(
                *ar,
                GeneratorDefinition::WhiteNoise,
                sample_rate,
                params@,
                chunk_index,
                is_pressed,
                r.0@,
            ),
        r.1 == !is_pressed,
{
    let mut result: [u32; CHUNK] = [ZERO; CHUNK];
    if !is_pressed {
        return (result, true);
    }
    let chunk_bytes: [u8; 16] = u128_to_ne_bytes(chunk_index);
    let mut hasher: DefaultHasher = DefaultHasher::new();
    hasher.write(&chunk_bytes);
    let ghost mut index_bytes: Seq<Seq<u8>> = Seq::empty();
    assert(hasher@ == noise_writes(chunk_bytes@, index_bytes));
    for i in 0..CHUNK
        invariant
            index_bytes.len() == i,
            hasher@ == noise_writes(chunk_bytes@, index_bytes),
            noise_from(*ar, params@, chunk_bytes@, index_bytes, result@.take(i as int)),
    {
        let is_left: bool = i % 2 == 0;
        let bytes: Vec<u8> = usize_to_ne_bytes(i);
        hasher.write(bytes.as_slice());
        let side: [u8; 1] = [
            if is_left {
                1u8
            } else {
                0u8
            },
        ];
        hasher.write(&side);
        let ghost before = index_bytes;
        proof {
            index_bytes = index_bytes.push(bytes@);
            assert(index_bytes.drop_last() == before);
            assert(side@ == seq![if on_left(i as int) { 1u8 } else { 0u8 }]);
        }
        let hash: u64 = hasher.finish();
        let val: Term = Term::natural(ar, hash).over(ar, Term::word(ar, HASH_RANGE)).times(
            ar,
            Term::word(ar, TWO),
        ).minus(ar, Term::word(ar, ONE)).times(ar, Term::word(ar, params[1]));
        let ghost shorter = result@.take(i as int);
        result[i] = val.word;
        proof {
            let longer = result@.take(i + 1);
            assert(longer == shorter.push(val.word));
            assert forall|j: int| 0 <= j < longer.len() implies evaluates(
                *ar,
                noise_sample(
                    DefaultHasher::spec_finish(
                        noise_writes(chunk_bytes@, index_bytes.take(j + 1)),
                    ),
                    params@,
                ),
                #[trigger] longer[j],
            ) by {
                if j < i {
                    assert(index_bytes.take(j + 1) == before.take(j + 1));
                    assert(longer[j] == shorter[j]);
                } else {
                    assert(index_bytes.take(j + 1) == index_bytes);
                }
            }
        }
    }
    assert(result@.take(CHUNK as int) == result@);
    assert(noise_from(*ar, params@, chunk_bytes@, index_bytes, result@));
    (result, false)
}

impl GeneratorDefinition {
    pub open spec fn spec_title(self) -> &'static str {
        match self {
            GeneratorDefinition::SineOsc => "sine osc",
            GeneratorDefinition::DetunedSaw => "detuned saw",
            GeneratorDefinition::WhiteNoise => "white noise",
        }
    }

    pub fn title(self) -> (r: &'static str)
        ensures
            r == self.spec_title(),
    {
        match self {
            GeneratorDefinition::SineOsc => "sine osc",
            GeneratorDefinition::DetunedSaw => "detuned saw",
            GeneratorDefinition::WhiteNoise => "white noise",
        }
    }

    pub fn param_names(self) -> (r: [&'static str; MAXIMUM_PARAM_INDEX])
        ensures
            forall|i: int|
                0 <= i < MAXIMUM_PARAM_INDEX ==> (#[trigger] r@[i])@ == generator_param_name(self, i),
    {
        let mut a: [&'static str; MAXIMUM_PARAM_INDEX] = [""; MAXIMUM_PARAM_INDEX];
        match self {
            GeneratorDefinition::SineOsc | GeneratorDefinition::DetunedSaw => {
                a[0] = "pitch";
                a[1] = "volume";
                a[2] = "decay";
            },
            GeneratorDefinition::WhiteNoise => {
                a[0] = "N/A";
                a[1] = "volume";
            },
        }
        a
    }

    pub fn param_count(self) -> (r: usize)
        ensures
            r == 3,
    {
        3
    }

    /// What a new generator starts with.
    pub fn init(self) -> (r: GeneratorData)
        ensures
            r.params@ == generator_defaults(self),
    {
        let mut a: [u32; MAXIMUM_PARAM_INDEX] = [ZERO; MAXIMUM_PARAM_INDEX];
        a[0] = CONCERT_PITCH;
        a[1] = match self {
            GeneratorDefinition::SineOsc => HALF,
            _ => QUARTER,
        };
        a[2] = SIX_TENTHS;
        assert(a@ == generator_defaults(self));
        GeneratorData { params: a }
    }

    /// Whether chunk `chunk_index` can be counted.
    pub fn can_count<const CHUNK: usize>(self, chunk_index: u128, is_pressed: bool) -> (r: bool)
        requires
            CHUNK > 0,
        ensures
            r == countable(self, CHUNK as int, chunk_index, is_pressed),
    {
        let chunk: u128 = CHUNK as u128;
        let index: u128 = (chunk_index as usize) as u128;
        assert(index * chunk <= 0xffff_ffff_ffff_ffff * 0xffff_ffff_ffff_ffff) by (nonlinear_arith)
            requires
                index <= 0xffff_ffff_ffff_ffff,
                chunk <= 0xffff_ffff_ffff_ffff,
        ;
        let samples: bool = index * chunk + (chunk - 1) <= usize::MAX as u128;
        let most: u128 = u128::MAX / chunk;
        proof {
            let (c, n, m) = (chunk_index as int, chunk as int, u128::MAX as int);
            vstd::arithmetic::div_mod::lemma_fundamental_div_mod(m, n);
            assert(c > most ==> c * n > m) by (nonlinear_arith)
                requires
                    m == n * (most as int) + m % n,
                    0 <= m % n < n,
            ;
            assert(c <= most ==> c * n <= m) by (nonlinear_arith)
                requires
                    m == n * (most as int) + m % n,
                    0 <= m % n < n,
            ;
        }
        match self {
            GeneratorDefinition::SineOsc => chunk_index <= most && (!is_pressed || samples),
            GeneratorDefinition::DetunedSaw => (is_pressed || chunk_index <= most) && samples,
            GeneratorDefinition::WhiteNoise => true,
        }
    }

    /// Whether a generator has nothing more to say at chunk `chunk_index`.
    pub fn has_finished<const CHUNK: usize>(
        self,
        sample_rate: u32,
        chunk_index: u128,
        is_pressed: bool,
    ) -> (r: bool)
        requires
            countable(self, CHUNK as int, chunk_index, is_pressed),
        ensures
            r == is_finished(self, sample_rate, CHUNK as int, chunk_index, is_pressed),
    {
        match self {
            GeneratorDefinition::SineOsc => chunk_index * (CHUNK as u128) > sample_rate as u128,
            GeneratorDefinition::DetunedSaw => !is_pressed && chunk_index * (CHUNK as u128)
                > sample_rate as u128,
            GeneratorDefinition::WhiteNoise => !is_pressed,
        }
    }

    /// The chunk `chunk_index` of a note, and whether the generator has finished.
    pub fn apply<A: Arithmetic, const CHUNK: usize>(
        self,
        ar: &A,
        sample_rate: u32,
        params: [u32; MAXIMUM_PARAM_INDEX],
        chunk_index: u128,
        is_pressed: bool,
    ) -> (r: ([u32; CHUNK], bool))
        requires
            countable(self, CHUNK as int, chunk_index, is_pressed),
        ensures
            sounds_like(*ar, self, sample_rate, params@, chunk_index, is_pressed, r.0@),
            r.1 == is_finished(self, sample_rate, CHUNK as int, chunk_index, is_pressed),
    {
        match self {
            GeneratorDefinition::SineOsc => sine_osc::<A, CHUNK>(
                ar,
                sample_rate,
                params,
                chunk_index,
                is_pressed,
            ),
            GeneratorDefinition::DetunedSaw => detuned_saw::<A, CHUNK>(
                ar,
                sample_rate,
                params,
                chunk_index,
                is_pressed,
            ),
            GeneratorDefinition::WhiteNoise => white_noise::<A, CHUNK>(
                ar,
                params,
                chunk_index,
                is_pressed,
            ),
        }
    }
}

} // verus!
