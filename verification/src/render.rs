//! Rendering: from the state of the player to samples.

use vstd::prelude::*;

use crate::arithmetic::{evaluates, word, Arithmetic, Expr, Term, ONE};
use crate::command::CommandReceiver;
use crate::effect::{effect_answers, Effect, EffectView, BUFFER_SIZE};
use crate::generator::{
    countable, is_finished, sounds_like, GeneratorView, MAXIMUM_PARAM_INDEX,
};
use crate::keys::Keycode;
use crate::mixing::{mix, mixed, sound_views, sounds_after, AudioSample, Sound};
use crate::player::{
    drained, effect_views, keys_differ, NoteData, Player, PlayerView, Rack, Verdict,
};
use crate::region::{
    declick, declick_start, declicked, limited, write_region, written, BUFFER_REGION_SIZE,
};

verus! {

/// The parameters that a note is rendered with: those of its generator, with
/// the note's pitch.
pub open spec fn note_params(generators: Seq<GeneratorView>, note: NoteData) -> Seq<u32> {
    generators[note.instrument as int].params.update(0, note.pitch)
}

/// `chunks` are what the notes sound like for one chunk.
pub open spec fn voiced<A: Arithmetic>(
    ar: A,
    sample_rate: u32,
    chunk: int,
    generators: Seq<GeneratorView>,
    notes: Seq<(Keycode, NoteData)>,
    chunks: Seq<Seq<u32>>,
) -> bool {
    &&& chunks.len() == notes.len()
    &&& forall|i: int|
        0 <= i < notes.len() ==> {
            let note = notes[i].1;
            &&& (#[trigger] chunks[i]).len() == chunk
            &&& sounds_like(
                ar,
                generators[note.instrument as int].definition,
                sample_rate,
                note_params(generators, note),
                note.current_chunk,
                note.is_pressed,
                chunks[i],
            )
        }
}

/// Chunks of sound of which nothing has been played.
pub open spec fn unplayed(chunks: Seq<Seq<u32>>) -> Seq<Sound> {
    chunks.map_values(|c: Seq<u32>| Sound { sample: c, position: 0 })
}

/// The generators after the notes were rendered with them: each is left at the
/// pitch of its last note.
pub open spec fn tuned(
    generators: Seq<GeneratorView>,
    notes: Seq<(Keycode, NoteData)>,
) -> Seq<GeneratorView>
    decreases notes.len(),
{
    if notes.len() == 0 {
        generators
    } else {
        let before = tuned(generators, notes.drop_last());
        let note = notes.last().1;
        let generator = before[note.instrument as int];
        before.update(
            note.instrument as int,
            GeneratorView { params: generator.params.update(0, note.pitch), ..generator },
        )
    }
}

/// A note stays while its key is down or its generator has not finished.
pub open spec fn note_stays(
    generators: Seq<GeneratorView>,
    sample_rate: u32,
    chunk: int,
    note: NoteData,
) -> bool {
    note.is_pressed || !is_finished(
        generators[note.instrument as int].definition,
        sample_rate,
        chunk,
        note.current_chunk,
        note.is_pressed,
    )
}

/// A note one chunk on.
pub open spec fn one_chunk_on(note: (Keycode, NoteData)) -> (Keycode, NoteData) {
    (note.0, NoteData { current_chunk: (note.1.current_chunk + 1) as u128, ..note.1 })
}

/// The notes after one chunk: each one chunk on, the finished ones gone.
pub open spec fn notes_after_chunk(
    generators: Seq<GeneratorView>,
    sample_rate: u32,
    chunk: int,
    notes: Seq<(Keycode, NoteData)>,
) -> Seq<(Keycode, NoteData)>
    decreases notes.len(),
{
    if notes.len() == 0 {
        notes
    } else {
        let before = notes_after_chunk(generators, sample_rate, chunk, notes.drop_last());
        if note_stays(generators, sample_rate, chunk, notes.last().1) {
            before.push(one_chunk_on(notes.last()))
        } else {
            before
        }
    }
}

/// The player after its notes sounded for a chunk as `chunks`.
pub open spec fn notes_sounded(
    before: PlayerView,
    sample_rate: u32,
    chunk: int,
    chunks: Seq<Seq<u32>>,
) -> PlayerView {
    let rack = before.rack;
    PlayerView {
        rack: Rack {
            notes: notes_after_chunk(rack.generators, sample_rate, chunk, rack.notes),
            generators: tuned(rack.generators, rack.notes),
            ..rack
        },
        sounds: before.sounds + unplayed(chunks),
        ..before
    }
}

/// The dry and the wet sample, in the proportion that the wetness gives.
pub open spec fn blend(dry: u32, wet: u32, wetness: u32) -> Expr {
    word(dry).times(word(ONE).minus(word(wetness))).plus(word(wet).times(word(wetness)))
}

pub open spec fn blended<A: Arithmetic>(
    ar: A,
    dry: Seq<u32>,
    wet: Seq<u32>,
    wetness: u32,
    out: Seq<u32>,
) -> bool {
    &&& out.len() == dry.len()
    &&& forall|i: int|
        0 <= i < out.len() ==> evaluates(ar, blend(dry[i], wet[i], wetness), #[trigger] out[i])
}

/// Whether the effects, one behind the other, can make `out` of `dry` and go
/// from `before` to `after`.
pub open spec fn through<A: Arithmetic>(
    ar: A,
    sample_rate: u32,
    before: Seq<EffectView>,
    wetness: Seq<u32>,
    dry: Seq<u32>,
    out: Seq<u32>,
    after: Seq<EffectView>,
) -> bool
    decreases before.len(),
{
    &&& after.len() == before.len()
    &&& if before.len() == 0 {
        out == dry
    } else {
        exists|mid: Seq<u32>, wet: Seq<u32>|
            {
                &&& through(
                    ar,
                    sample_rate,
                    before.drop_last(),
                    wetness.drop_last(),
                    dry,
                    mid,
                    after.drop_last(),
                )
                &&& #[trigger] effect_answers(
                    ar,
                    sample_rate,
                    before.last(),
                    mid,
                    wet,
                    after.last(),
                )
                &&& blended(ar, mid, wet, wetness.last(), out)
            }
    }
}

/// The steps of one chunk of `n` samples: the notes sound as `chunks`, add up
/// to `dry`, pass the effects as `out` and enter the region as `samples`, whose
/// seam to the samples before is smoothed.
pub open spec fn chunk_steps<A: Arithmetic>(
    ar: A,
    sample_rate: u32,
    chunk: int,
    n: int,
    before: PlayerView,
    chunks: Seq<Seq<u32>>,
    dry: Seq<u32>,
    out: Seq<u32>,
    samples: Seq<u32>,
    after: PlayerView,
) -> bool {
    let rack = before.rack;
    let sounding = notes_sounded(before, sample_rate, chunk, chunks);
    &&& voiced(ar, sample_rate, chunk, rack.generators, rack.notes, chunks)
    &&& dry.len() == chunk
    &&& mixed(ar, sounding.sounds, n, dry)
    &&& through(ar, sample_rate, rack.effects, rack.wetness, dry, out, after.rack.effects)
    &&& limited(ar, out, n, samples)
    &&& declicked(
        ar,
        sample_rate,
        before.pointer,
        written(before.region, before.pointer, samples),
        after.region,
    )
    &&& after == PlayerView {
        rack: Rack { effects: after.rack.effects, ..sounding.rack },
        sounds: sounds_after(sounding.sounds, n as nat),
        region: after.region,
        pointer: (before.pointer + n) % BUFFER_REGION_SIZE as int,
    }
}

/// The sounds of `before` add up to `dry` for `n` samples and pass the effects as
/// `out`.
pub open spec fn mixed_through<A: Arithmetic>(
    ar: A,
    sample_rate: u32,
    chunk: int,
    n: int,
    before: PlayerView,
    dry: Seq<u32>,
    out: Seq<u32>,
    after: PlayerView,
) -> bool {
    let rack = before.rack;
    &&& dry.len() == chunk
    &&& mixed(ar, before.sounds, n, dry)
    &&& through(ar, sample_rate, rack.effects, rack.wetness, dry, out, after.rack.effects)
    &&& after == PlayerView {
        rack: Rack { effects: after.rack.effects, ..rack },
        sounds: sounds_after(before.sounds, n as nat),
        ..before
    }
}

/// The first `n` samples of `out` enter the region as `samples`, whose seam to
/// the samples before is smoothed.
pub open spec fn emitted<A: Arithmetic>(
    ar: A,
    sample_rate: u32,
    n: int,
    before: PlayerView,
    out: Seq<u32>,
    samples: Seq<u32>,
    after: PlayerView,
) -> bool {
    &&& limited(ar, out, n, samples)
    &&& declicked(
        ar,
        sample_rate,
        before.pointer,
        written(before.region, before.pointer, samples),
        after.region,
    )
    &&& after == PlayerView {
        region: after.region,
        pointer: (before.pointer + n) % BUFFER_REGION_SIZE as int,
        ..before
    }
}

/// Whether rendering a chunk of `n` samples can take the player from `before`
/// to `after`.
#[verifier::opaque]
pub open spec fn chunk_played<A: Arithmetic>(
    ar: A,
    sample_rate: u32,
    chunk: int,
    n: int,
    before: PlayerView,
    after: PlayerView,
) -> bool {
    exists|chunks: Seq<Seq<u32>>, dry: Seq<u32>, out: Seq<u32>, samples: Seq<u32>|
        #[trigger] chunk_steps(
            ar,
            sample_rate,
            chunk,
            n,
            before,
            chunks,
            dry,
            out,
            samples,
            after,
        )
}

/// The three parts of a chunk put together.
proof fn lemma_chunk_put_together<A: Arithmetic>(
    ar: A,
    sample_rate: u32,
    chunk: int,
    n: int,
    before: PlayerView,
    sounded: PlayerView,
    out: Seq<u32>,
    blended: PlayerView,
    after: PlayerView,
)
    requires
        exists|chunks: Seq<Seq<u32>>|
            {
                &&& #[trigger] voiced(
                    ar,
                    sample_rate,
                    chunk,
                    before.rack.generators,
                    before.rack.notes,
                    chunks,
                )
                &&& sounded == notes_sounded(before, sample_rate, chunk, chunks)
            },
        exists|dry: Seq<u32>|
            #[trigger] mixed_through(
                ar,
                sample_rate,
                chunk,
                n,
                sounded,
                dry,
                out,
                blended,
            ),
        exists|samples: Seq<u32>|
            #[trigger] emitted(ar, sample_rate, n, blended, out, samples, after),
    ensures
        chunk_played(ar, sample_rate, chunk, n, before, after),
{
    let chunks = choose|chunks: Seq<Seq<u32>>|
        {
            &&& #[trigger] voiced(
                ar,
                sample_rate,
                chunk,
                before.rack.generators,
                before.rack.notes,
                chunks,
            )
            &&& sounded == notes_sounded(before, sample_rate, chunk, chunks)
        };
    let dry = choose|dry: Seq<u32>|
        #[trigger] mixed_through(ar, sample_rate, chunk, n, sounded, dry, out, blended);
    let samples = choose|samples: Seq<u32>|
        #[trigger] emitted(ar, sample_rate, n, blended, out, samples, after);
    reveal(chunk_played);
    assert(chunk_steps(
        ar,
        sample_rate,
        chunk,
        n,
        before,
        chunks,
        dry,
        out,
        samples,
        after,
    ));
}

/// The number of samples in chunk `k` of `len` samples.
pub open spec fn chunk_len(len: int, chunk: int, k: int) -> int {
    if len - k * chunk < chunk {
        len - k * chunk
    } else {
        chunk
    }
}

/// `states` are the states of the player between the chunks of `len` samples.
pub open spec fn chunk_states<A: Arithmetic>(
    ar: A,
    sample_rate: u32,
    chunk: int,
    len: int,
    states: Seq<PlayerView>,
) -> bool {
    &&& states.len() > 0
    &&& forall|k: int|
        0 < k < states.len() ==> chunk_played(
            ar,
            sample_rate,
            chunk,
            chunk_len(len, chunk, k - 1),
            states[k - 1],
            #[trigger] states[k],
        )
}

/// Whether rendering `len` samples chunk by chunk can take the player from
/// `before` to `after`.
pub open spec fn all_played<A: Arithmetic>(
    ar: A,
    sample_rate: u32,
    chunk: int,
    len: int,
    before: PlayerView,
    after: PlayerView,
) -> bool {
    exists|states: Seq<PlayerView>|
        {
            &&& #[trigger] chunk_states(ar, sample_rate, chunk, len, states)
            &&& states[0] == before
            &&& states.last() == after
            &&& (states.len() - 2) * chunk < len <= (states.len() - 1) * chunk
        }
}

/// The next chunk of a note can be counted.
pub open spec fn note_countable(rack: Rack, chunk: int, note: NoteData) -> bool {
    &&& countable(
        rack.generators[note.instrument as int].definition,
        chunk,
        note.current_chunk,
        note.is_pressed,
    )
    &&& note.current_chunk < u128::MAX
}

/// The next chunk of each note can be counted.
pub open spec fn notes_countable(rack: Rack, chunk: int) -> bool {
    forall|i: int|
        0 <= i < rack.notes.len() ==> note_countable(rack, chunk, (#[trigger] rack.notes[i]).1)
}

/// Each chunk that a note sounds for within the next `len` samples can be
/// counted.
pub open spec fn note_within(
    rack: Rack,
    sample_rate: u32,
    chunk: int,
    note: (Keycode, NoteData),
    len: int,
) -> bool
    decreases
        (if len > 0 {
            len
        } else {
            0
        }),
{
    len <= 0 || chunk <= 0 || {
        &&& note_countable(rack, chunk, note.1)
        &&& note_stays(rack.generators, sample_rate, chunk, note.1) ==> note_within(
            rack,
            sample_rate,
            chunk,
            one_chunk_on(note),
            len - chunk,
        )
    }
}

/// Each chunk that each note sounds for within the next `len` samples can be
/// counted.
pub open spec fn notes_within(rack: Rack, sample_rate: u32, chunk: int, len: int) -> bool {
    forall|i: int|
        0 <= i < rack.notes.len() ==> note_within(
            rack,
            sample_rate,
            chunk,
            #[trigger] rack.notes[i],
            len,
        )
}

/// The oldest `len` samples in the region: what is streamed.
pub open spec fn streamed(player: PlayerView, len: int) -> Seq<u32> {
    Seq::new(len as nat, |i: int| player.region[player.pointer + i])
}

/// `len` samples can be rendered and streamed: no chunk starts where the
/// smoothing would begin at the last sample of the region, the samples to
/// stream lie in the region without a break, and each chunk of each note can be
/// counted within the limits of the machine.
pub open spec fn can_process(player: PlayerView, sample_rate: u32, chunk: int, len: int) -> bool {
    &&& chunk > 0
    &&& notes_within(player.rack, sample_rate, chunk, len)
    &&& forall|k: int|
        0 <= k && #[trigger] (k * chunk) < len ==> declick_start(
            (player.pointer + k * chunk) % BUFFER_REGION_SIZE as int,
        ) + 1 < BUFFER_REGION_SIZE
    &&& (player.pointer + len) % BUFFER_REGION_SIZE as int + len <= BUFFER_REGION_SIZE
}

/// What became of a call for samples.
#[derive(Clone, Copy, PartialEq, Eq, Structural, Debug)]
pub enum Outcome {
    /// The samples were rendered.
    Rendered,
    /// A command was not obeyed; nothing was rendered.
    Stopped(Verdict),
    /// The commands were obeyed, but as many samples cannot be rendered.
    Overrun,
}

/// Whether a call for the samples `data` can take the player from `before` to
/// `after`, by way of the rack `rack` that the commands lead to.
pub open spec fn processed_with<A: Arithmetic>(
    ar: A,
    sample_rate: u32,
    chunk: int,
    before: PlayerView,
    from: CommandReceiver,
    data: Seq<u32>,
    outcome: Outcome,
    rack: Rack,
    after: PlayerView,
    to: CommandReceiver,
    new_data: Seq<u32>,
) -> bool {
    let len = data.len() as int;
    let told = PlayerView { rack, ..before };
    match outcome {
        Outcome::Rendered => {
            &&& drained(before.rack, from, Verdict::Obeyed, rack, to)
            &&& can_process(told, sample_rate, chunk, len)
            &&& all_played(ar, sample_rate, chunk, len, told, after)
            &&& new_data == streamed(after, len)
        },
        Outcome::Stopped(verdict) => {
            &&& drained(before.rack, from, verdict, rack, to)
            &&& verdict != Verdict::Obeyed
            &&& after == told
            &&& new_data == data
        },
        Outcome::Overrun => {
            &&& drained(before.rack, from, Verdict::Obeyed, rack, to)
            &&& !can_process(told, sample_rate, chunk, len)
            &&& after == told
            &&& new_data == data
        },
    }
}

/// Whether a call for the samples `data` can take the player from `before` to
/// `after`: commands come and are obeyed up to the first that cannot be; if all
/// were obeyed and it is possible, as many samples are rendered as there are in
/// `data`, and `data` becomes the oldest in the region. Otherwise nothing but
/// the commands has an effect.
pub open spec fn processed<A: Arithmetic>(
    ar: A,
    sample_rate: u32,
    chunk: int,
    before: PlayerView,
    from: CommandReceiver,
    data: Seq<u32>,
    outcome: Outcome,
    after: PlayerView,
    to: CommandReceiver,
    new_data: Seq<u32>,
) -> bool {
    exists|rack: Rack|
        #[trigger] processed_with(
            ar,
            sample_rate,
            chunk,
            before,
            from,
            data,
            outcome,
            rack,
            after,
            to,
            new_data,
        )
}

/// Whether a note can be counted depends on the definition of its generator
/// alone.
pub proof fn lemma_within_by_definition(
    first: Rack,
    second: Rack,
    sample_rate: u32,
    chunk: int,
    note: (Keycode, NoteData),
    len: int,
)
    requires
        first.generators[note.1.instrument as int].definition
            == second.generators[note.1.instrument as int].definition,
    ensures
        note_within(first, sample_rate, chunk, note, len) == note_within(
            second,
            sample_rate,
            chunk,
            note,
            len,
        ),
    decreases
        (if len > 0 {
            len
        } else {
            0
        }),
{
    if len > 0 && chunk > 0 {
        lemma_within_by_definition(
            first,
            second,
            sample_rate,
            chunk,
            one_chunk_on(note),
            len - chunk,
        );
    }
}

/// After a full chunk the notes have as many samples less to go.
proof fn lemma_chunk_within(before: Rack, after: Rack, sample_rate: u32, chunk: int, len: int)
    requires
        before.wf(),
        after.notes == notes_after_chunk(before.generators, sample_rate, chunk, before.notes),
        after.generators == tuned(before.generators, before.notes),
        chunk > 0,
        len > 0,
        notes_within(before, sample_rate, chunk, len),
    ensures
        notes_within(after, sample_rate, chunk, len - chunk),
{
    let notes = before.notes;
    lemma_keys_after_chunk(before.generators, sample_rate, chunk, notes);
    assert forall|j: int| 0 <= j < after.notes.len() implies note_within(
        after,
        sample_rate,
        chunk,
        #[trigger] after.notes[j],
        len - chunk,
    ) by {
        let i = choose|i: int|
            0 <= i < notes.len() && after.notes[j] == one_chunk_on(#[trigger] notes[i])
                && note_stays(before.generators, sample_rate, chunk, notes[i].1);
        let g = notes[i].1.instrument as int;
        assert(before.generators[g].params.len() == MAXIMUM_PARAM_INDEX);
        lemma_tuned(before.generators, notes, g);
        assert(note_within(before, sample_rate, chunk, notes[i], len));
        lemma_within_by_definition(
            before,
            after,
            sample_rate,
            chunk,
            after.notes[j],
            len - chunk,
        );
    }
}

/// One more effect behind the others.
proof fn lemma_through_next<A: Arithmetic>(
    ar: A,
    sample_rate: u32,
    before: Seq<EffectView>,
    effect: EffectView,
    wetness: Seq<u32>,
    its_wetness: u32,
    dry: Seq<u32>,
    mid: Seq<u32>,
    wet: Seq<u32>,
    out: Seq<u32>,
    after: Seq<EffectView>,
    its_after: EffectView,
)
    requires
        through(ar, sample_rate, before, wetness, dry, mid, after),
        effect_answers(ar, sample_rate, effect, mid, wet, its_after),
        blended(ar, mid, wet, its_wetness, out),
    ensures
        through(
            ar,
            sample_rate,
            before.push(effect),
            wetness.push(its_wetness),
            dry,
            out,
            after.push(its_after),
        ),
{
    assert(before.push(effect).drop_last() == before);
    assert(wetness.push(its_wetness).drop_last() == wetness);
    assert(after.push(its_after).drop_last() == after);
    assert(effect_answers(
        ar,
        sample_rate,
        before.push(effect).last(),
        mid,
        wet,
        after.push(its_after).last(),
    ));
}

/// Blends a chunk with what an effect made of it.
fn blend_chunk<A: Arithmetic, const CHUNK: usize>(
    ar: &A,
    signal: &mut [u32; CHUNK],
    wet: &[u32; CHUNK],
    wetness: u32,
)
    ensures
        blended(*ar, old(signal)@, wet@, wetness, final(signal)@),
{
    let ghost dry = signal@;
    for i in 0..CHUNK
        invariant
            dry.len() == CHUNK,
            forall|j: int| i <= j < CHUNK ==> #[trigger] signal@[j] == dry[j],
            forall|j: int|
                0 <= j < i ==> evaluates(
                    *ar,
                    blend(dry[j], wet@[j], wetness),
                    #[trigger] signal@[j],
                ),
    {
        let sum: Term = Term::word(ar, signal[i]).times(
            ar,
            Term::word(ar, ONE).minus(ar, Term::word(ar, wetness)),
        ).plus(ar, Term::word(ar, wet[i]).times(ar, Term::word(ar, wetness)));
        signal[i] = sum.word;
    }
}

/// Runs a chunk through the effects.
fn run_effects<A: Arithmetic, const CHUNK: usize>(
    ar: &A,
    sample_rate: u32,
    effects: &mut Vec<Effect>,
    wetness: &Vec<u32>,
    dry: [u32; CHUNK],
) -> (out: [u32; CHUNK])
    requires
        old(effects).len() == wetness.len(),
        forall|j: int| 0 <= j < old(effects).len() ==> (#[trigger] old(effects)@[j]).wf(),
    ensures
        final(effects).len() == old(effects).len(),
        forall|j: int| 0 <= j < final(effects).len() ==> (#[trigger] final(effects)@[j]).wf(),
        through(
            *ar,
            sample_rate,
            effect_views(old(effects)@),
            wetness@,
            dry@,
            out@,
            effect_views(final(effects)@),
        ),
{
    let ghost before = effects@;
    let mut signal: [u32; CHUNK] = dry;
    let count: usize = effects.len();
    for e in 0..count
        invariant
            count == before.len(),
            count == wetness.len(),
            effects.len() == count,
            forall|j: int| 0 <= j < count ==> (#[trigger] effects@[j]).wf(),
            forall|j: int| e <= j < count ==> #[trigger] effects@[j] == before[j],
            through(
                *ar,
                sample_rate,
                effect_views(before.take(e as int)),
                wetness@.take(e as int),
                dry@,
                signal@,
                effect_views(effects@.take(e as int)),
            ),
    {
        let ghost mid = signal@;
        let ghost now = effects@;
        assert(effects@[e as int] == before[e as int]);
        let wet: [u32; CHUNK] = effects[e].apply::<A, CHUNK>(ar, sample_rate, &signal);
        blend_chunk(ar, &mut signal, &wet, wetness[e]);
        proof {
            assert(effect_views(before.take(e + 1)) == effect_views(before.take(e as int)).push(
                before[e as int]@,
            ));
            assert(wetness@.take(e + 1) == wetness@.take(e as int).push(wetness@[e as int]));
            assert(effect_views(effects@.take(e + 1)) == effect_views(now.take(e as int)).push(
                effects@[e as int]@,
            ));
            lemma_through_next(
                *ar,
                sample_rate,
                effect_views(before.take(e as int)),
                before[e as int]@,
                wetness@.take(e as int),
                wetness@[e as int],
                dry@,
                mid,
                wet@,
                signal@,
                effect_views(now.take(e as int)),
                effects@[e as int]@,
            );
        }
    }
    assert(before.take(count as int) == before);
    assert(wetness@.take(count as int) == wetness@);
    assert(effects@.take(count as int) == effects@);
    signal
}

/// One more state of the player between two chunks.
proof fn lemma_next_state<A: Arithmetic>(
    ar: A,
    sample_rate: u32,
    chunk: int,
    len: int,
    states: Seq<PlayerView>,
    next: PlayerView,
)
    requires
        chunk_states(ar, sample_rate, chunk, len, states),
        chunk_played(
            ar,
            sample_rate,
            chunk,
            chunk_len(len, chunk, states.len() - 1),
            states.last(),
            next,
        ),
    ensures
        chunk_states(ar, sample_rate, chunk, len, states.push(next)),
{
    let longer = states.push(next);
    assert forall|j: int| 0 < j < longer.len() implies chunk_played(
        ar,
        sample_rate,
        chunk,
        chunk_len(len, chunk, j - 1),
        longer[j - 1],
        #[trigger] longer[j],
    ) by {
        if j < states.len() {
            assert(longer[j] == states[j]);
            assert(longer[j - 1] == states[j - 1]);
        }
    }
}

/// What a chunk does to the notes, the generators and the pointer.
pub proof fn lemma_chunk_keeps<A: Arithmetic>(
    ar: A,
    sample_rate: u32,
    chunk: int,
    n: int,
    before: PlayerView,
    after: PlayerView,
)
    requires
        chunk_played(ar, sample_rate, chunk, n, before, after),
    ensures
        after.rack.notes == notes_after_chunk(
            before.rack.generators,
            sample_rate,
            chunk,
            before.rack.notes,
        ),
        after.rack.generators == tuned(before.rack.generators, before.rack.notes),
        after.pointer == (before.pointer + n) % BUFFER_REGION_SIZE as int,
{
    reveal(chunk_played);
}

/// What a chunk does to the region: samples are written and their seam is
/// smoothed.
pub proof fn lemma_chunk_region<A: Arithmetic>(
    ar: A,
    sample_rate: u32,
    chunk: int,
    n: int,
    before: PlayerView,
    after: PlayerView,
) -> (samples: Seq<u32>)
    requires
        chunk_played(ar, sample_rate, chunk, n, before, after),
    ensures
        samples.len() == n,
        declicked(
            ar,
            sample_rate,
            before.pointer,
            written(before.region, before.pointer, samples),
            after.region,
        ),
{
    reveal(chunk_played);
    let (chunks, dry, out, samples) = choose|
        chunks: Seq<Seq<u32>>,
        dry: Seq<u32>,
        out: Seq<u32>,
        samples: Seq<u32>,
    |
        #[trigger] chunk_steps(
            ar,
            sample_rate,
            chunk,
            n,
            before,
            chunks,
            dry,
            out,
            samples,
            after,
        );
    samples
}

/// Going on twice round the region is going on by the sum.
proof fn lemma_round_on(p: int, a: int, b: int)
    ensures
        ((p + a) % BUFFER_REGION_SIZE as int + b) % BUFFER_REGION_SIZE as int == (p + a + b)
            % BUFFER_REGION_SIZE as int,
{
}

/// The pointer after `k` chunks.
pub proof fn lemma_pointer_between<A: Arithmetic>(
    ar: A,
    sample_rate: u32,
    chunk: int,
    len: int,
    states: Seq<PlayerView>,
    k: int,
)
    requires
        chunk > 0,
        len >= 0,
        0 <= k < states.len(),
        (states.len() - 2) * chunk < len,
        chunk_states(ar, sample_rate, chunk, len, states),
        0 <= states[0].pointer < BUFFER_REGION_SIZE,
    ensures
        states[k].pointer == (states[0].pointer + if k * chunk < len {
            k * chunk
        } else {
            len
        }) % BUFFER_REGION_SIZE as int,
        0 < k ==> (k - 1) * chunk < len,
    decreases k,
{
    if k > 0 {
        lemma_pointer_between(ar, sample_rate, chunk, len, states, k - 1);
        let n = chunk_len(len, chunk, k - 1);
        assert(chunk_played(ar, sample_rate, chunk, n, states[k - 1], states[k]));
        lemma_chunk_keeps(ar, sample_rate, chunk, n, states[k - 1], states[k]);
        assert((k - 1) * chunk <= (states.len() - 2) * chunk) by (nonlinear_arith)
            requires
                k <= states.len() - 1,
                chunk > 0,
        ;
        assert(k * chunk == (k - 1) * chunk + chunk) by (nonlinear_arith);
        lemma_round_on(states[0].pointer, (k - 1) * chunk, n);
    } else {
        assert(0 * chunk == 0);
    }
}

/// The first `done` of `len` samples are rendered, `states` are the states of
/// the player between the chunks so far.
#[verifier::opaque]
spec fn rendered_so_far<A: Arithmetic>(
    ar: A,
    sample_rate: u32,
    chunk: int,
    len: int,
    start: PlayerView,
    states: Seq<PlayerView>,
    done: int,
) -> bool {
    let k = states.len() - 1;
    &&& chunk_states(ar, sample_rate, chunk, len, states)
    &&& states[0] == start
    &&& done < len ==> done == k * chunk
    &&& done == len ==> (k - 1) * chunk < len <= k * chunk
    &&& done < len ==> notes_within(states.last().rack, sample_rate, chunk, len - done)
    &&& states.last().pointer == (start.pointer + done) % BUFFER_REGION_SIZE as int
}

/// The next chunk can be rendered.
proof fn lemma_chunk_can_start<A: Arithmetic>(
    ar: A,
    sample_rate: u32,
    chunk: int,
    len: int,
    start: PlayerView,
    states: Seq<PlayerView>,
    done: int,
)
    requires
        can_process(start, sample_rate, chunk, len),
        rendered_so_far(ar, sample_rate, chunk, len, start, states, done),
        0 <= done < len,
        states.len() > 0,
    ensures
        notes_countable(states.last().rack, chunk),
        declick_start(states.last().pointer) + 1 < BUFFER_REGION_SIZE,
{
    reveal(rendered_so_far);
    let k = states.len() - 1;
    assert(k * chunk < len);
    let rack = states.last().rack;
    assert forall|i: int| 0 <= i < rack.notes.len() implies note_countable(
        rack,
        chunk,
        (#[trigger] rack.notes[i]).1,
    ) by {
        assert(note_within(rack, sample_rate, chunk, rack.notes[i], len - done));
    }
}

/// One more chunk is rendered.
#[verifier::spinoff_prover]
#[verifier::rlimit(30)]
proof fn lemma_rendered_next<A: Arithmetic>(
    ar: A,
    sample_rate: u32,
    chunk: int,
    len: int,
    start: PlayerView,
    states: Seq<PlayerView>,
    done: int,
    n: int,
    next: PlayerView,
)
    requires
        chunk > 0,
        rendered_so_far(ar, sample_rate, chunk, len, start, states, done),
        0 <= done < len,
        n == if len - done < chunk {
            len - done
        } else {
            chunk
        },
        states.len() > 0,
        states.last().rack.wf(),
        chunk_played(ar, sample_rate, chunk, n, states.last(), next),
    ensures
        rendered_so_far(ar, sample_rate, chunk, len, start, states.push(next), done + n),
{
    reveal(rendered_so_far);
    let k = states.len() - 1;
    let now = states.last();
    assert((k + 1) * chunk == k * chunk + chunk) by (nonlinear_arith);
    lemma_next_state(ar, sample_rate, chunk, len, states, next);
    lemma_chunk_keeps(ar, sample_rate, chunk, n, now, next);
    lemma_chunk_within(now.rack, next.rack, sample_rate, chunk, len - done);
    lemma_round_on(start.pointer, done, n);
    assert(states.push(next).last() == next);
}

/// Rendering the notes adds and removes no generator.
pub proof fn lemma_tuned_len(generators: Seq<GeneratorView>, notes: Seq<(Keycode, NoteData)>)
    requires
        forall|i: int|
            0 <= i < notes.len() ==> (#[trigger] notes[i]).1.instrument < generators.len(),
    ensures
        tuned(generators, notes).len() == generators.len(),
    decreases notes.len(),
{
    if notes.len() > 0 {
        let before = notes.drop_last();
        assert forall|i: int| 0 <= i < before.len() implies (#[trigger] before[i]).1.instrument
            < generators.len() by {
            assert(before[i] == notes[i]);
        }
        lemma_tuned_len(generators, before);
        assert(notes[notes.len() - 1].1.instrument < generators.len());
    }
}

/// Rendering the notes changes a generator in nothing but its pitch.
pub proof fn lemma_tuned(generators: Seq<GeneratorView>, notes: Seq<(Keycode, NoteData)>, g: int)
    requires
        0 <= g < generators.len(),
        generators[g].params.len() > 0,
        forall|i: int|
            0 <= i < notes.len() ==> (#[trigger] notes[i]).1.instrument < generators.len(),
    ensures
        tuned(generators, notes)[g].definition == generators[g].definition,
        tuned(generators, notes)[g].params.len() == generators[g].params.len(),
        forall|pitch: u32|
            #[trigger] tuned(generators, notes)[g].params.update(0, pitch)
                == generators[g].params.update(0, pitch),
    decreases notes.len(),
{
    if notes.len() > 0 {
        let before = notes.drop_last();
        assert forall|i: int| 0 <= i < before.len() implies (#[trigger] before[i]).1.instrument
            < generators.len() by {
            assert(before[i] == notes[i]);
        }
        lemma_tuned(generators, before, g);
        lemma_tuned_len(generators, before);
        assert(notes[notes.len() - 1].1.instrument < generators.len());
        let was = tuned(generators, before)[g].params;
        assert forall|pitch: u32|
            #[trigger] tuned(generators, notes)[g].params.update(0, pitch)
                == generators[g].params.update(0, pitch) by {
            assert(was.update(0, pitch) == generators[g].params.update(0, pitch));
            assert(was.update(0, notes.last().1.pitch).update(0, pitch) == was.update(0, pitch));
        }
    }
}

/// A note is one of `notes` that stays, one chunk on.
pub open spec fn goes_on_from(
    generators: Seq<GeneratorView>,
    sample_rate: u32,
    chunk: int,
    notes: Seq<(Keycode, NoteData)>,
    note: (Keycode, NoteData),
) -> bool {
    exists|i: int|
        0 <= i < notes.len() && note == one_chunk_on(#[trigger] notes[i]) && note_stays(
            generators,
            sample_rate,
            chunk,
            notes[i].1,
        )
}

/// A chunk adds no note and keeps the keys apart: each note was there before and
/// is one chunk on.
pub proof fn lemma_keys_after_chunk(
    generators: Seq<GeneratorView>,
    sample_rate: u32,
    chunk: int,
    notes: Seq<(Keycode, NoteData)>,
)
    requires
        keys_differ(notes),
    ensures
        ({
            let after = notes_after_chunk(generators, sample_rate, chunk, notes);
            &&& keys_differ(after)
            &&& forall|j: int|
                0 <= j < after.len() ==> goes_on_from(
                    generators,
                    sample_rate,
                    chunk,
                    notes,
                    #[trigger] after[j],
                )
        }),
    decreases notes.len(),
{
    if notes.len() > 0 {
        let shorter = notes.drop_last();
        assert forall|i: int, j: int| 0 <= i < j < shorter.len() implies (#[trigger] shorter[i]).0
            != (#[trigger] shorter[j]).0 by {
            assert(shorter[i] == notes[i] && shorter[j] == notes[j]);
        }
        lemma_keys_after_chunk(generators, sample_rate, chunk, shorter);
        let before = notes_after_chunk(generators, sample_rate, chunk, shorter);
        let after = notes_after_chunk(generators, sample_rate, chunk, notes);
        assert forall|j: int| 0 <= j < after.len() implies goes_on_from(
            generators,
            sample_rate,
            chunk,
            notes,
            #[trigger] after[j],
        ) by {
            if j < before.len() {
                assert(after[j] == before[j]);
                assert(goes_on_from(generators, sample_rate, chunk, shorter, before[j]));
                let i = choose|i: int|
                    0 <= i < shorter.len() && before[j] == one_chunk_on(#[trigger] shorter[i])
                        && note_stays(generators, sample_rate, chunk, shorter[i].1);
                assert(notes[i] == shorter[i]);
            } else {
                assert(after[j] == one_chunk_on(notes[notes.len() - 1]));
            }
        }
        assert forall|i: int, j: int| 0 <= i < j < after.len() implies (#[trigger] after[i]).0
            != (#[trigger] after[j]).0 by {
            assert(after[i] == before[i]);
            assert(goes_on_from(generators, sample_rate, chunk, shorter, before[i]));
            let a = choose|a: int|
                0 <= a < shorter.len() && before[i] == one_chunk_on(#[trigger] shorter[a]);
            assert(notes[a] == shorter[a]);
            if j < before.len() {
                assert(after[j] == before[j]);
            } else {
                assert(after[j] == one_chunk_on(notes[notes.len() - 1]));
                assert(notes[a].0 != notes[notes.len() - 1].0);
            }
        }
    }
}

impl<const CHUNK: usize> Player<CHUNK> {
    /// Lets each note sound for a chunk.
    #[verifier::spinoff_prover]
    #[verifier::rlimit(30)]
    fn sound_notes<A: Arithmetic>(&mut self, ar: &A, sample_rate: u32)
        requires
            old(self).wf(),
            CHUNK > 0,
            notes_countable(old(self)@.rack, CHUNK as int),
        ensures
            final(self).wf(),
            exists|chunks: Seq<Seq<u32>>|
                {
                    &&& #[trigger] voiced(
                        *ar,
                        sample_rate,
                        CHUNK as int,
                        old(self)@.rack.generators,
                        old(self)@.rack.notes,
                        chunks,
                    )
                    &&& final(self)@ == notes_sounded(
                        old(self)@,
                        sample_rate,
                        CHUNK as int,
                        chunks,
                    )
                },
            final(self).consumer == old(self).consumer,
    {
        let ghost before = *self;
        let ghost rack = self@.rack;
        let ghost mut chunks: Seq<Seq<u32>> = Seq::empty();
        let mut kept: Vec<(Keycode, NoteData)> = Vec::new();
        assert(rack.notes.take(0) == Seq::<(Keycode, NoteData)>::empty());
        assert(self@.sounds == before@.sounds + unplayed(chunks));
        let count: usize = self.playing_keys.len();
        for i in 0..count
            invariant
                count == rack.notes.len(),
                before == *old(self),
                rack == before@.rack,
                rack.wf(),
                CHUNK > 0,
                notes_countable(rack, CHUNK as int),
                self.playing_keys@ == rack.notes,
                self@ == (PlayerView {
                    rack: Rack {
                        generators: tuned(rack.generators, rack.notes.take(i as int)),
                        ..rack
                    },
                    sounds: before@.sounds + unplayed(chunks),
                    ..before@
                }),
                self.consumer == before.consumer,
                kept@ == notes_after_chunk(
                    rack.generators,
                    sample_rate,
                    CHUNK as int,
                    rack.notes.take(i as int),
                ),
                voiced(
                    *ar,
                    sample_rate,
                    CHUNK as int,
                    rack.generators,
                    rack.notes.take(i as int),
                    chunks,
                ),
        {
            let (key, note) = self.playing_keys[i];
            let ghost so_far = rack.notes.take(i as int);
            proof {
                assert(rack.notes[i as int].1 == note);
                assert(rack.notes.take(i + 1).drop_last() == so_far);
                assert forall|j: int| 0 <= j < so_far.len() implies (
                #[trigger] so_far[j]).1.instrument < rack.generators.len() by {
                    assert(so_far[j] == rack.notes[j]);
                }
                lemma_tuned(rack.generators, so_far, note.instrument as int);
                lemma_tuned_len(rack.generators, so_far);
                assert(note_countable(rack, CHUNK as int, note));
            }
            self.generators[note.instrument].data.params[0] = note.pitch;
            let generator = self.generators[note.instrument];
            assert(self@.rack.generators == tuned(rack.generators, rack.notes.take(i + 1)));
            let (sample_chunk, finished) = generator.definition.apply::<A, CHUNK>(
                ar,
                sample_rate,
                generator.data.params,
                note.current_chunk,
                note.is_pressed,
            );
            let ghost samples_before = self.playing_samples@;
            self.playing_samples.push(AudioSample { sample: sample_chunk, position: 0 });
            proof {
                let longer = chunks.push(sample_chunk@);
                let sound = Sound { sample: sample_chunk@, position: 0 };
                assert(sound_views(samples_before) == before@.sounds + unplayed(chunks));
                assert(unplayed(longer) == unplayed(chunks).push(sound));
                assert(sound_views(self.playing_samples@) == sound_views(samples_before).push(
                    sound,
                ));
                assert(sound_views(self.playing_samples@) == before@.sounds + unplayed(longer));
                assert forall|j: int| 0 <= j < longer.len() implies {
                    let n = rack.notes.take(i + 1)[j].1;
                    &&& (#[trigger] longer[j]).len() == CHUNK
                    &&& sounds_like(
                        *ar,
                        rack.generators[n.instrument as int].definition,
                        sample_rate,
                        note_params(rack.generators, n),
                        n.current_chunk,
                        n.is_pressed,
                        longer[j],
                    )
                } by {
                    if j < i {
                        assert(longer[j] == chunks[j]);
                        assert(so_far[j] == rack.notes.take(i + 1)[j]);
                    }
                }
                chunks = longer;
            }
            if !(!note.is_pressed && finished) {
                kept.push(
                    (
                        key,
                        NoteData {
                            instrument: note.instrument,
                            is_pressed: note.is_pressed,
                            pitch: note.pitch,
                            current_chunk: note.current_chunk + 1,
                        },
                    ),
                );
            }
        }
        assert(rack.notes.take(rack.notes.len() as int) == rack.notes);
        self.playing_keys = kept;
        proof {
            lemma_keys_after_chunk(rack.generators, sample_rate, CHUNK as int, rack.notes);
            lemma_tuned_len(rack.generators, rack.notes);
            assert forall|g: int| 0 <= g < self@.rack.generators.len() implies (
            #[trigger] self@.rack.generators[g]).params.len() == 64 by {
                lemma_tuned(rack.generators, rack.notes, g);
            }
        }
    }

    /// Adds up the sounds for `n` samples and passes the sum through the effects.
    fn mix_through<A: Arithmetic>(&mut self, ar: &A, sample_rate: u32, n: usize) -> (out: [u32;
        CHUNK])
        requires
            old(self).wf(),
            n <= CHUNK,
        ensures
            exists|dry: Seq<u32>|
                #[trigger] mixed_through(
                    *ar,
                    sample_rate,
                    CHUNK as int,
                    n as int,
                    old(self)@,
                    dry,
                    out@,
                    final(self)@,
                ),
            final(self).wf(),
            final(self).consumer == old(self).consumer,
    {
        let ghost before = self@;
        let dry: [u32; CHUNK] = mix(ar, &mut self.playing_samples, n);
        assert forall|j: int| 0 <= j < self.effect_stack.len() implies (
        #[trigger] self.effect_stack@[j]).wf() by {
            assert(self@.rack.effects[j].pointer < BUFFER_SIZE);
        }
        let out: [u32; CHUNK] = run_effects(
            ar,
            sample_rate,
            &mut self.effect_stack,
            &self.effect_wetness,
            dry,
        );
        assert(mixed_through(
            *ar,
            sample_rate,
            CHUNK as int,
            n as int,
            before,
            dry@,
            out@,
            self@,
        ));
        out
    }

    /// Writes `n` samples to the region, limited, and smooths their seam.
    fn emit<A: Arithmetic>(&mut self, ar: &A, sample_rate: u32, out: &[u32; CHUNK], n: usize)
        requires
            old(self).wf(),
            n <= CHUNK,
            declick_start(old(self)@.pointer) + 1 < BUFFER_REGION_SIZE,
        ensures
            exists|samples: Seq<u32>|
                #[trigger] emitted(
                    *ar,
                    sample_rate,
                    n as int,
                    old(self)@,
                    out@,
                    samples,
                    final(self)@,
                ),
            final(self).wf(),
            final(self).consumer == old(self).consumer,
    {
        let ghost before = self@;
        let start: usize = self.buffer_region_pointer;
        write_region(ar, &mut self.buffer_region, &mut self.buffer_region_pointer, out, n);
        let ghost samples = choose|samples: Seq<u32>|
            {
                &&& #[trigger] limited(*ar, out@, n as int, samples)
                &&& self.buffer_region@ == written(before.region, before.pointer, samples)
            };
        declick(ar, sample_rate, &mut self.buffer_region, start);
        assert(emitted(*ar, sample_rate, n as int, before, out@, samples, self@));
    }

    /// Renders a chunk of `n` samples.
    #[verifier::spinoff_prover]
    pub fn play_chunk<A: Arithmetic>(&mut self, ar: &A, sample_rate: u32, n: usize)
        requires
            old(self).wf(),
            0 < CHUNK,
            n <= CHUNK,
            notes_countable(old(self)@.rack, CHUNK as int),
            declick_start(old(self)@.pointer) + 1 < BUFFER_REGION_SIZE,
        ensures
            final(self).wf(),
            chunk_played(*ar, sample_rate, CHUNK as int, n as int, old(self)@, final(self)@),
            final(self).consumer == old(self).consumer,
    {
        let ghost before = self@;
        self.sound_notes(ar, sample_rate);
        let ghost sounded = self@;
        let out: [u32; CHUNK] = self.mix_through(ar, sample_rate, n);
        let ghost blended = self@;
        self.emit(ar, sample_rate, &out, n);
        proof {
            lemma_chunk_put_together(
                *ar,
                sample_rate,
                CHUNK as int,
                n as int,
                before,
                sounded,
                out@,
                blended,
                self@,
            );
        }
    }

    /// Renders `len` samples, chunk by chunk.
    fn play_all<A: Arithmetic>(&mut self, ar: &A, sample_rate: u32, len: usize)
        requires
            old(self).wf(),
            can_process(old(self)@, sample_rate, CHUNK as int, len as int),
        ensures
            final(self).wf(),
            all_played(*ar, sample_rate, CHUNK as int, len as int, old(self)@, final(self)@),
            final(self)@.pointer == (old(self)@.pointer + len) % BUFFER_REGION_SIZE as int,
            final(self).consumer == old(self).consumer,
    {
        let ghost before = *self;
        let ghost start = self@;
        let ghost mut states: Seq<PlayerView> = seq![self@];
        let mut done: usize = 0;
        proof {
            reveal(rendered_so_far);
        }
        while done < len
            invariant
                self.wf(),
                can_process(start, sample_rate, CHUNK as int, len as int),
                done <= len,
                self.consumer == before.consumer,
                states.len() > 0,
                rendered_so_far(
                    *ar,
                    sample_rate,
                    CHUNK as int,
                    len as int,
                    start,
                    states,
                    done as int,
                ),
                states.last() == self@,
            decreases len - done,
        {
            let n: usize = if len - done < CHUNK {
                len - done
            } else {
                CHUNK
            };
            proof {
                lemma_chunk_can_start(
                    *ar,
                    sample_rate,
                    CHUNK as int,
                    len as int,
                    start,
                    states,
                    done as int,
                );
            }
            self.play_chunk(ar, sample_rate, n);
            proof {
                lemma_rendered_next(
                    *ar,
                    sample_rate,
                    CHUNK as int,
                    len as int,
                    start,
                    states,
                    done as int,
                    n as int,
                    self@,
                );
                states = states.push(self@);
            }
            done = done + n;
        }
        proof {
            reveal(rendered_so_far);
        }
    }

    /// Fills `data` with the next samples. First the commands that have come are
    /// obeyed; if one cannot be, nothing is rendered and `data` stays as it is.
    pub fn process<A: Arithmetic>(
        &mut self,
        ar: &A,
        data: &mut [u32],
        _channels: u32,
        sample_rate: u32,
    ) -> (r: Outcome)
        requires
            old(self).wf(),
        ensures
            final(self).wf(),
            processed(
                *ar,
                sample_rate,
                CHUNK as int,
                old(self)@,
                old(self).consumer,
                old(data)@,
                r,
                final(self)@,
                final(self).consumer,
                final(data)@,
            ),
    {
        let ghost before = *self;
        let ghost data0 = data@;
        let len: usize = data.len();
        let verdict: Verdict = self.drain();
        let ghost rack = self@.rack;
        if verdict != Verdict::Obeyed {
            assert(processed_with(
                *ar,
                sample_rate,
                CHUNK as int,
                before@,
                before.consumer,
                data0,
                Outcome::Stopped(verdict),
                rack,
                self@,
                self.consumer,
                data@,
            ));
            return Outcome::Stopped(verdict);
        }
        if !self.can_fill(sample_rate, len) {
            assert(processed_with(
                *ar,
                sample_rate,
                CHUNK as int,
                before@,
                before.consumer,
                data0,
                Outcome::Overrun,
                rack,
                self@,
                self.consumer,
                data@,
            ));
            return Outcome::Overrun;
        }
        self.play_all(ar, sample_rate, len);
        let pointer: usize = self.buffer_region_pointer;
        for i in 0..len
            invariant
                pointer + len <= BUFFER_REGION_SIZE,
                len == data@.len(),
                forall|j: int| 0 <= j < i ==> #[trigger] data@[j] == self.buffer_region@[pointer + j],
        {
            data[i] = self.buffer_region[pointer + i];
        }
        assert(data@ == streamed(self@, len as int));
        assert(processed_with(
            *ar,
            sample_rate,
            CHUNK as int,
            before@,
            before.consumer,
            data0,
            Outcome::Rendered,
            rack,
            self@,
            self.consumer,
            data@,
        ));
        Outcome::Rendered
    }

    /// Whether each chunk that a note sounds for within the next `len` samples
    /// can be counted.
    fn can_count(&self, sample_rate: u32, note: NoteData, len: usize) -> (r: bool)
        requires
            note.instrument < self.generators.len(),
            CHUNK > 0,
        ensures
            forall|key: Keycode|
                r == #[trigger] note_within(
                    self@.rack,
                    sample_rate,
                    CHUNK as int,
                    (key, note),
                    len as int,
                ),
        decreases len,
    {
        proof {
            reveal_with_fuel(note_within, 2);
        }
        if len == 0 {
            return true;
        }
        let definition = self.generators[note.instrument].definition;
        assert(self@.rack.generators[note.instrument as int].definition == definition);
        if !definition.can_count::<CHUNK>(note.current_chunk, note.is_pressed)
            || note.current_chunk == u128::MAX {
            return false;
        }
        if len <= CHUNK {
            return true;
        }
        if !note.is_pressed && definition.has_finished::<CHUNK>(
            sample_rate,
            note.current_chunk,
            note.is_pressed,
        ) {
            return true;
        }
        let next = NoteData {
            instrument: note.instrument,
            is_pressed: note.is_pressed,
            pitch: note.pitch,
            current_chunk: note.current_chunk + 1,
        };
        let r: bool = self.can_count(sample_rate, next, len - CHUNK);
        assert forall|key: Keycode|
            r == #[trigger] note_within(
                self@.rack,
                sample_rate,
                CHUNK as int,
                (key, note),
                len as int,
            ) by {
            assert(one_chunk_on((key, note)) == (key, next));
            assert(r == note_within(
                self@.rack,
                sample_rate,
                CHUNK as int,
                (key, next),
                len - CHUNK,
            ));
        }
        r
    }

    /// Whether `len` samples can be rendered at a rate.
    pub fn can_fill(&self, sample_rate: u32, len: usize) -> (r: bool)
        requires
            self.wf(),
        ensures
            r == can_process(self@, sample_rate, CHUNK as int, len as int),
    {
        if CHUNK == 0 || len > BUFFER_REGION_SIZE {
            return false;
        }
        for i in 0..self.playing_keys.len()
            invariant
                CHUNK > 0,
                self.wf(),
                forall|j: int|
                    0 <= j < i ==> note_within(
                        self@.rack,
                        sample_rate,
                        CHUNK as int,
                        #[trigger] self@.rack.notes[j],
                        len as int,
                    ),
        {
            let (key, note) = self.playing_keys[i];
            assert(self@.rack.notes[i as int] == (key, note));
            if !self.can_count(sample_rate, note, len) {
                return false;
            }
        }
        let pointer: usize = self.buffer_region_pointer;
        if !seams_fit::<CHUNK>(pointer, len) {
            return false;
        }
        (pointer + len) % BUFFER_REGION_SIZE + len <= BUFFER_REGION_SIZE
    }
}

/// Whether no chunk of `len` samples from `pointer` on starts where the smoothing
/// would begin at the last sample of the region.
fn seams_fit<const CHUNK: usize>(pointer: usize, len: usize) -> (r: bool)
    requires
        CHUNK > 0,
        pointer < BUFFER_REGION_SIZE,
        len <= BUFFER_REGION_SIZE,
    ensures
        r == (forall|k: int|
            0 <= k && #[trigger] (k * CHUNK) < len ==> declick_start(
                (pointer + k * CHUNK) % BUFFER_REGION_SIZE as int,
            ) + 1 < BUFFER_REGION_SIZE),
{
    let mut offset: usize = 0;
    let ghost mut k: int = 0;
    while offset < len
        invariant
            pointer < BUFFER_REGION_SIZE,
            0 < CHUNK,
            offset <= len <= BUFFER_REGION_SIZE,
            0 <= k,
            offset < len ==> offset == k * CHUNK,
            offset == len ==> len <= k * CHUNK,
            forall|j: int|
                0 <= j < k && #[trigger] (j * CHUNK) < len ==> declick_start(
                    (pointer + j * CHUNK) % BUFFER_REGION_SIZE as int,
                ) + 1 < BUFFER_REGION_SIZE,
        decreases len - offset,
    {
        let start: usize = (pointer + offset) % BUFFER_REGION_SIZE;
        if start == 3 {
            assert(k * CHUNK < len);
            return false;
        }
        proof {
            assert((k + 1) * CHUNK == k * CHUNK + CHUNK) by (nonlinear_arith);
            k = k + 1;
        }
        offset = if len - offset <= CHUNK {
            len
        } else {
            offset + CHUNK
        };
    }
    proof {
        assert forall|j: int| 0 <= j && #[trigger] (j * CHUNK) < len implies declick_start(
            (pointer + j * CHUNK) % BUFFER_REGION_SIZE as int,
        ) + 1 < BUFFER_REGION_SIZE by {
            assert(j < k) by (nonlinear_arith)
                requires
                    j * CHUNK < len,
                    len <= k * CHUNK,
                    CHUNK > 0,
            ;
        }
    }
    true
}

} // verus!
