//! What holds of a player over many chunks, commands and calls.

use vstd::prelude::*;

use crate::arithmetic::{evaluates, word, Arithmetic, MINUS_ONE, ONE, ZERO};
use crate::command::{received, AudioCommand, CommandReceiver};
use crate::generator::{GeneratorDefinition, MAXIMUM_PARAM_INDEX};
use crate::keys::Keycode;
use crate::laws::{
    law_command_keeps_order, law_commands_keep_order, law_even_requests_fit, law_note_ends,
    law_note_goes_on,
};
use crate::mirror::law_rendering_keeps_order;
use crate::mixing::{sounding, sounds_after, stepped, Sound};
use crate::player::{
    drained, drained_with, has_note, silent_player, PlayerView, Rack, Verdict,
};
use crate::region::{
    declick_right, declick_start, declicked_frames, limited, smooth, smoothed_samples, written,
    BUFFER_REGION_SIZE, DECLICK_SIZE,
};
use crate::render::{
    all_played, can_process, chunk_len, chunk_played, chunk_states, chunk_steps,
    lemma_chunk_keeps, lemma_keys_after_chunk, lemma_pointer_between, lemma_tuned,
    lemma_tuned_len, note_stays, notes_within, one_chunk_on, processed, processed_with, unplayed,
    Outcome,
};

verus! {

// The life of a player

/// A step in the life of a player.
pub enum Moment {
    /// It is told something.
    Command(AudioCommand),
    /// It renders a chunk of as many samples.
    Chunk(int),
}

/// Whether a step can take the player from `before` to `after`.
pub open spec fn steps_to<A: Arithmetic>(
    ar: A,
    sample_rate: u32,
    chunk: int,
    before: PlayerView,
    moment: Moment,
    after: PlayerView,
) -> bool {
    match moment {
        Moment::Command(command) => after == (PlayerView {
            rack: before.rack.after(command),
            ..before
        }),
        Moment::Chunk(n) => chunk_played(ar, sample_rate, chunk, n, before, after),
    }
}

/// `states` are the states of the player between the steps `moments`.
pub open spec fn lived<A: Arithmetic>(
    ar: A,
    sample_rate: u32,
    chunk: int,
    states: Seq<PlayerView>,
    moments: Seq<Moment>,
) -> bool {
    &&& states.len() == moments.len() + 1
    &&& forall|t: int|
        0 <= t < moments.len() ==> steps_to(
            ar,
            sample_rate,
            chunk,
            states[t],
            #[trigger] moments[t],
            states[t + 1],
        )
}

/// The number of chunks among some steps.
pub open spec fn chunks_in(moments: Seq<Moment>) -> nat
    decreases moments.len(),
{
    if moments.len() == 0 {
        0
    } else {
        chunks_in(moments.drop_last()) + if moments.last() is Chunk {
            1nat
        } else {
            0
        }
    }
}

/// Two lives, of which one begins as the other ends, are one.
proof fn lemma_lived_both<A: Arithmetic>(
    ar: A,
    sample_rate: u32,
    chunk: int,
    states: Seq<PlayerView>,
    moments: Seq<Moment>,
    more_states: Seq<PlayerView>,
    more: Seq<Moment>,
)
    requires
        lived(ar, sample_rate, chunk, states, moments),
        lived(ar, sample_rate, chunk, more_states, more),
        states.last() == more_states[0],
    ensures
        lived(ar, sample_rate, chunk, states + more_states.skip(1), moments + more),
        (states + more_states.skip(1)).last() == more_states.last(),
{
    let all = states + more_states.skip(1);
    let n = moments.len() as int;
    assert forall|t: int| 0 <= t < (moments + more).len() implies steps_to(
        ar,
        sample_rate,
        chunk,
        all[t],
        #[trigger] (moments + more)[t],
        all[t + 1],
    ) by {
        if t < n {
            assert(steps_to(ar, sample_rate, chunk, states[t], moments[t], states[t + 1]));
        } else {
            assert(steps_to(
                ar,
                sample_rate,
                chunk,
                more_states[t - n],
                more[t - n],
                more_states[t - n + 1],
            ));
            assert(all[t] == more_states[t - n]);
            assert(all[t + 1] == more_states[t - n + 1]);
        }
    }
}

proof fn lemma_chunks_add(first: Seq<Moment>, second: Seq<Moment>)
    ensures
        chunks_in(first + second) == chunks_in(first) + chunks_in(second),
    decreases second.len(),
{
    if second.len() == 0 {
        assert(first + second == first);
    } else {
        lemma_chunks_add(first, second.drop_last());
        assert((first + second).drop_last() == first + second.drop_last());
    }
}

proof fn lemma_no_chunks(moments: Seq<Moment>)
    requires
        forall|t: int| 0 <= t < moments.len() ==> #[trigger] moments[t] is Command,
    ensures
        chunks_in(moments) == 0,
    decreases moments.len(),
{
    if moments.len() > 0 {
        lemma_no_chunks(moments.drop_last());
    }
}

proof fn lemma_all_chunks(moments: Seq<Moment>)
    requires
        forall|t: int| 0 <= t < moments.len() ==> #[trigger] moments[t] is Chunk,
    ensures
        chunks_in(moments) == moments.len(),
    decreases moments.len(),
{
    if moments.len() > 0 {
        lemma_all_chunks(moments.drop_last());
    }
}

/// The steps that commands are.
pub open spec fn told_steps(commands: Seq<AudioCommand>) -> Seq<Moment> {
    Seq::new(commands.len(), |t: int| Moment::Command(commands[t]))
}

/// The steps that the chunks of `len` samples are.
pub open spec fn chunk_moments(len: int, chunk: int, count: nat) -> Seq<Moment> {
    Seq::new(count, |t: int| Moment::Chunk(chunk_len(len, chunk, t)))
}

proof fn lemma_told_lived<A: Arithmetic>(
    ar: A,
    sample_rate: u32,
    chunk: int,
    before: PlayerView,
    commands: Seq<AudioCommand>,
) -> (states: Seq<PlayerView>)
    ensures
        lived(ar, sample_rate, chunk, states, told_steps(commands)),
        states[0] == before,
        states.last() == (PlayerView { rack: before.rack.after_all(commands), ..before }),
{
    let states = Seq::new(
        commands.len() + 1,
        |k: int| PlayerView { rack: before.rack.after_all(commands.take(k)), ..before },
    );
    let moments = told_steps(commands);
    assert forall|t: int| 0 <= t < moments.len() implies steps_to(
        ar,
        sample_rate,
        chunk,
        states[t],
        #[trigger] moments[t],
        states[t + 1],
    ) by {
        assert(commands.take(t + 1).drop_last() == commands.take(t));
    }
    assert(commands.take(commands.len() as int) == commands);
    states
}

/// Rendering is as many chunks as it takes.
proof fn lemma_played_lived<A: Arithmetic>(
    ar: A,
    sample_rate: u32,
    chunk: int,
    len: int,
    before: PlayerView,
    after: PlayerView,
) -> (states: Seq<PlayerView>)
    requires
        all_played(ar, sample_rate, chunk, len, before, after),
    ensures
        states.len() > 0,
        lived(
            ar,
            sample_rate,
            chunk,
            states,
            chunk_moments(len, chunk, (states.len() - 1) as nat),
        ),
        states[0] == before,
        states.last() == after,
        (states.len() - 2) * chunk < len <= (states.len() - 1) * chunk,
{
    let states = choose|states: Seq<PlayerView>|
        {
            &&& #[trigger] chunk_states(ar, sample_rate, chunk, len, states)
            &&& states[0] == before
            &&& states.last() == after
            &&& (states.len() - 2) * chunk < len <= (states.len() - 1) * chunk
        };
    let moments = chunk_moments(len, chunk, (states.len() - 1) as nat);
    assert forall|t: int| 0 <= t < moments.len() implies steps_to(
        ar,
        sample_rate,
        chunk,
        states[t],
        #[trigger] moments[t],
        states[t + 1],
    ) by {
        assert(chunk_played(
            ar,
            sample_rate,
            chunk,
            chunk_len(len, chunk, t + 1 - 1),
            states[t + 1 - 1],
            states[t + 1],
        ));
    }
    states
}

/// Whether `count` chunks are rendered in a call for `len` samples.
pub open spec fn renders(outcome: Outcome, len: int, chunk: int, count: int) -> bool {
    if outcome == Outcome::Rendered {
        (count - 1) * chunk < len <= count * chunk
    } else {
        count == 0
    }
}

/// `states` and the steps lead through a call: first the commands that came,
/// then the chunks.
pub open spec fn leads_through<A: Arithmetic>(
    ar: A,
    sample_rate: u32,
    chunk: int,
    len: int,
    outcome: Outcome,
    states: Seq<PlayerView>,
    commands: Seq<AudioCommand>,
    count: nat,
) -> bool {
    &&& lived(
        ar,
        sample_rate,
        chunk,
        states,
        told_steps(commands) + chunk_moments(len, chunk, count),
    )
    &&& chunks_in(told_steps(commands) + chunk_moments(len, chunk, count)) == count
    &&& renders(outcome, len, chunk, count as int)
}

/// A call is a life: the commands that came out of the ring, one after the
/// other, and then, if it rendered, the chunks that its samples take.
pub proof fn law_call_is_a_life<A: Arithmetic>(
    ar: A,
    sample_rate: u32,
    chunk: int,
    before: PlayerView,
    from: CommandReceiver,
    data: Seq<u32>,
    outcome: Outcome,
    after: PlayerView,
    to: CommandReceiver,
    new_data: Seq<u32>,
)
    requires
        processed(
            ar,
            sample_rate,
            chunk,
            before,
            from,
            data,
            outcome,
            after,
            to,
            new_data,
        ),
    ensures
        exists|states: Seq<PlayerView>, commands: Seq<AudioCommand>, count: nat|
            {
                &&& #[trigger] leads_through(
                    ar,
                    sample_rate,
                    chunk,
                    data.len() as int,
                    outcome,
                    states,
                    commands,
                    count,
                )
                &&& states[0] == before
                &&& states.last() == after
                &&& received(to) == received(from) + commands
            },
{
    let len = data.len() as int;
    let rack = choose|rack: Rack|
        #[trigger] processed_with(
            ar,
            sample_rate,
            chunk,
            before,
            from,
            data,
            outcome,
            rack,
            after,
            to,
            new_data,
        );
    let verdict = match outcome {
        Outcome::Stopped(verdict) => verdict,
        _ => Verdict::Obeyed,
    };
    assert(drained(before.rack, from, verdict, rack, to));
    let commands = choose|commands: Seq<AudioCommand>|
        #[trigger] drained_with(before.rack, from, commands, verdict, rack, to);
    let told = PlayerView { rack, ..before };
    let first = lemma_told_lived(ar, sample_rate, chunk, before, commands);
    assert(first.last() == told);
    lemma_no_chunks(told_steps(commands));
    if outcome == Outcome::Rendered {
        let second = lemma_played_lived(ar, sample_rate, chunk, len, told, after);
        let count = (second.len() - 1) as nat;
        let moments = chunk_moments(len, chunk, count);
        lemma_lived_both(ar, sample_rate, chunk, first, told_steps(commands), second, moments);
        lemma_all_chunks(moments);
        lemma_chunks_add(told_steps(commands), moments);
        let states = first + second.skip(1);
        assert(leads_through(ar, sample_rate, chunk, len, outcome, states, commands, count));
    } else {
        assert(told_steps(commands) + chunk_moments(len, chunk, 0) == told_steps(commands));
        assert(leads_through(ar, sample_rate, chunk, len, outcome, first, commands, 0));
    }
}

// Released notes

/// How many chunks a note is still there after its key went up.
pub open spec fn lasts(
    definition: GeneratorDefinition,
    sample_rate: u32,
    chunk: int,
    chunks: int,
) -> bool {
    match definition {
        GeneratorDefinition::WhiteNoise => chunks == 0,
        _ => chunks <= sample_rate as int / chunk + 1,
    }
}

/// The key went up `chunks` chunks ago: its note counts them, or is gone.
pub open spec fn dying(
    rack: Rack,
    key: Keycode,
    definition: GeneratorDefinition,
    sample_rate: u32,
    chunk: int,
    chunks: int,
) -> bool {
    if lasts(definition, sample_rate, chunk, chunks) {
        exists|i: int|
            {
                &&& 0 <= i < rack.notes.len()
                &&& (#[trigger] rack.notes[i]).0 == key
                &&& !rack.notes[i].1.is_pressed
                &&& rack.notes[i].1.current_chunk == chunks
                &&& rack.generators[rack.notes[i].1.instrument as int].definition == definition
            }
    } else {
        !has_note(rack.notes, key)
    }
}

/// A step that tells nothing of the key.
pub open spec fn leaves_key(moment: Moment, key: Keycode) -> bool {
    match moment {
        Moment::Command(AudioCommand::Press(_, k, _)) => k != key,
        Moment::Command(AudioCommand::Release(k)) => k != key,
        _ => true,
    }
}

/// A key that goes up has a note that begins to die.
pub proof fn law_release_begins_dying(
    rack: Rack,
    i: int,
    sample_rate: u32,
    chunk: int,
)
    requires
        chunk > 0,
        0 <= i < rack.notes.len(),
    ensures
        dying(
            rack.after(AudioCommand::Release(rack.notes[i].0)),
            rack.notes[i].0,
            rack.generators[rack.notes[i].1.instrument as int].definition,
            sample_rate,
            chunk,
            0,
        ),
{
    let after = rack.after(AudioCommand::Release(rack.notes[i].0));
    assert(sample_rate as int / chunk >= 0) by (nonlinear_arith)
        requires
            chunk > 0,
    ;
    assert(after.notes[i].0 == rack.notes[i].0);
}

proof fn lemma_command_leaves_dying(
    rack: Rack,
    command: AudioCommand,
    key: Keycode,
    definition: GeneratorDefinition,
    sample_rate: u32,
    chunk: int,
    chunks: int,
)
    requires
        rack.wf(),
        leaves_key(Moment::Command(command), key),
        dying(rack, key, definition, sample_rate, chunk, chunks),
    ensures
        dying(rack.after(command), key, definition, sample_rate, chunk, chunks),
{
    let after = rack.after(command);
    if lasts(definition, sample_rate, chunk, chunks) {
        let i = choose|i: int|
            {
                &&& 0 <= i < rack.notes.len()
                &&& (#[trigger] rack.notes[i]).0 == key
                &&& !rack.notes[i].1.is_pressed
                &&& rack.notes[i].1.current_chunk == chunks
                &&& rack.generators[rack.notes[i].1.instrument as int].definition == definition
            };
        assert(after.notes[i] == rack.notes[i]);
        assert(rack.notes[i].1.instrument < rack.generators.len());
    } else if has_note(after.notes, key) {
        let i = choose|i: int| 0 <= i < after.notes.len() && (#[trigger] after.notes[i]).0 == key;
        if i < rack.notes.len() {
            assert(rack.notes[i].0 == key);
        }
    }
}

/// The note of a released key is there after the next chunk if and only if it
/// has not yet died for a second of samples.
proof fn lemma_lasts_next(
    definition: GeneratorDefinition,
    sample_rate: u32,
    chunk: int,
    chunks: int,
)
    requires
        chunk > 0,
        chunks >= 0,
    ensures
        lasts(definition, sample_rate, chunk, chunks + 1) == match definition {
            GeneratorDefinition::WhiteNoise => false,
            _ => chunks * chunk <= sample_rate,
        },
        lasts(definition, sample_rate, chunk, chunks + 1) ==> lasts(
            definition,
            sample_rate,
            chunk,
            chunks,
        ),
{
    let r = sample_rate as int;
    let q = r / chunk;
    vstd::arithmetic::div_mod::lemma_fundamental_div_mod(r, chunk);
    assert(chunks <= q ==> chunks * chunk <= r) by (nonlinear_arith)
        requires
            r == chunk * q + r % chunk,
            0 <= r % chunk < chunk,
            chunk > 0,
    ;
    assert(chunks > q ==> chunks * chunk > r) by (nonlinear_arith)
        requires
            r == chunk * q + r % chunk,
            0 <= r % chunk < chunk,
            chunk > 0,
    ;
}

proof fn lemma_chunk_goes_on_dying<A: Arithmetic>(
    ar: A,
    sample_rate: u32,
    chunk: int,
    n: int,
    before: PlayerView,
    after: PlayerView,
    key: Keycode,
    definition: GeneratorDefinition,
    chunks: int,
)
    requires
        chunk > 0,
        chunks >= 0,
        before.rack.wf(),
        chunk_played(ar, sample_rate, chunk, n, before, after),
        dying(before.rack, key, definition, sample_rate, chunk, chunks),
    ensures
        dying(after.rack, key, definition, sample_rate, chunk, chunks + 1),
{
    let rack = before.rack;
    let notes = rack.notes;
    lemma_chunk_keeps(ar, sample_rate, chunk, n, before, after);
    lemma_lasts_next(definition, sample_rate, chunk, chunks);
    lemma_keys_after_chunk(rack.generators, sample_rate, chunk, notes);
    if lasts(definition, sample_rate, chunk, chunks) {
        let i = choose|i: int|
            {
                &&& 0 <= i < notes.len()
                &&& (#[trigger] notes[i]).0 == key
                &&& !notes[i].1.is_pressed
                &&& notes[i].1.current_chunk == chunks
                &&& rack.generators[notes[i].1.instrument as int].definition == definition
            };
        let note = notes[i].1;
        let g = note.instrument as int;
        assert(rack.generators[g].params.len() == MAXIMUM_PARAM_INDEX);
        lemma_tuned(rack.generators, notes, g);
        if note_stays(rack.generators, sample_rate, chunk, note) {
            law_note_goes_on(rack.generators, sample_rate, chunk, notes, i);
            assert(chunks <= chunks * chunk) by (nonlinear_arith)
                requires
                    chunk > 0,
                    chunks >= 0,
            ;
            let next = one_chunk_on(notes[i]);
            let j = choose|j: int| 0 <= j < after.rack.notes.len() && after.rack.notes[j] == next;
            assert(after.rack.notes[j].0 == key);
            assert(after.rack.notes[j].1.current_chunk == chunks + 1);
        } else {
            law_note_ends(rack.generators, sample_rate, chunk, notes, i);
        }
    } else if has_note(after.rack.notes, key) {
        let j = choose|j: int|
            0 <= j < after.rack.notes.len() && (#[trigger] after.rack.notes[j]).0 == key;
        let i = choose|i: int|
            0 <= i < notes.len() && after.rack.notes[j] == one_chunk_on(#[trigger] notes[i]);
        assert(notes[i].0 == key);
    }
}

/// After its key went up, and until it goes down again, the note of a sine or a
/// saw is there for a second of samples, counted in whole chunks, and one chunk
/// more; that of the noise is gone with the first chunk. It makes no difference
/// what else the player is told meanwhile.
pub proof fn law_released_note_lasts<A: Arithmetic>(
    ar: A,
    sample_rate: u32,
    chunk: int,
    states: Seq<PlayerView>,
    moments: Seq<Moment>,
    key: Keycode,
    definition: GeneratorDefinition,
)
    requires
        chunk > 0,
        lived(ar, sample_rate, chunk, states, moments),
        states[0].rack.wf(),
        dying(states[0].rack, key, definition, sample_rate, chunk, 0),
        forall|t: int| 0 <= t < moments.len() ==> leaves_key(#[trigger] moments[t], key),
    ensures
        has_note(states.last().rack.notes, key) == lasts(
            definition,
            sample_rate,
            chunk,
            chunks_in(moments) as int,
        ),
{
    lemma_life_of_dying(ar, sample_rate, chunk, states, moments, key, definition);
}

proof fn lemma_life_of_dying<A: Arithmetic>(
    ar: A,
    sample_rate: u32,
    chunk: int,
    states: Seq<PlayerView>,
    moments: Seq<Moment>,
    key: Keycode,
    definition: GeneratorDefinition,
)
    requires
        chunk > 0,
        lived(ar, sample_rate, chunk, states, moments),
        states[0].rack.wf(),
        dying(states[0].rack, key, definition, sample_rate, chunk, 0),
        forall|t: int| 0 <= t < moments.len() ==> leaves_key(#[trigger] moments[t], key),
    ensures
        states.last().rack.wf(),
        dying(
            states.last().rack,
            key,
            definition,
            sample_rate,
            chunk,
            chunks_in(moments) as int,
        ),
    decreases moments.len(),
{
    if moments.len() > 0 {
        let earlier = moments.drop_last();
        let past = states.drop_last();
        assert forall|t: int| 0 <= t < earlier.len() implies steps_to(
            ar,
            sample_rate,
            chunk,
            past[t],
            #[trigger] earlier[t],
            past[t + 1],
        ) by {
            assert(earlier[t] == moments[t]);
        }
        assert forall|t: int| 0 <= t < earlier.len() implies leaves_key(
            #[trigger] earlier[t],
            key,
        ) by {
            assert(earlier[t] == moments[t]);
        }
        lemma_life_of_dying(ar, sample_rate, chunk, past, earlier, key, definition);
        let last = moments.len() - 1;
        let before = states[last];
        let after = states[last + 1];
        let chunks = chunks_in(earlier) as int;
        assert(past.last() == before);
        assert(steps_to(ar, sample_rate, chunk, before, moments[last], after));
        match moments[last] {
            Moment::Command(command) => {
                lemma_command_leaves_dying(
                    before.rack,
                    command,
                    key,
                    definition,
                    sample_rate,
                    chunk,
                    chunks,
                );
                law_command_keeps_order(before.rack, command);
            },
            Moment::Chunk(n) => {
                lemma_chunk_goes_on_dying(
                    ar,
                    sample_rate,
                    chunk,
                    n,
                    before,
                    after,
                    key,
                    definition,
                    chunks,
                );
                law_rendering_keeps_order(ar, sample_rate, chunk, n, before, after);
            },
        }
    }
}

// The range of the samples

/// A property of words that limiting to the range from -1 to 1 brings about and
/// smoothing keeps.
pub open spec fn bounds<A: Arithmetic>(
    ar: A,
    sample_rate: u32,
    good: spec_fn(u32) -> bool,
) -> bool {
    &&& forall|a: u32, r: u32| #[trigger]
        call_ensures(A::clamp, (&ar, a, MINUS_ONE, ONE), r) ==> good(r)
    &&& forall|held: u32, sample: u32, r: u32|
        good(held) && good(sample) && #[trigger] evaluates(
            ar,
            smooth(sample_rate, held, sample),
            r,
        ) ==> good(r)
}

/// All words have a property.
pub open spec fn all_good(words: Seq<u32>, good: spec_fn(u32) -> bool) -> bool {
    forall|i: int| 0 <= i < words.len() ==> good(#[trigger] words[i])
}

proof fn lemma_written_good(
    region: Seq<u32>,
    pointer: int,
    samples: Seq<u32>,
    good: spec_fn(u32) -> bool,
)
    requires
        region.len() == BUFFER_REGION_SIZE,
        all_good(region, good),
        all_good(samples, good),
    ensures
        written(region, pointer, samples).len() == BUFFER_REGION_SIZE,
        all_good(written(region, pointer, samples), good),
    decreases samples.len(),
{
    if samples.len() > 0 {
        let shorter = samples.drop_last();
        assert forall|i: int| 0 <= i < shorter.len() implies good(#[trigger] shorter[i]) by {
            assert(shorter[i] == samples[i]);
        }
        lemma_written_good(region, pointer, shorter, good);
        let before = written(region, pointer, shorter);
        let after = written(region, pointer, samples);
        assert(good(samples[samples.len() - 1]));
        assert forall|i: int| 0 <= i < after.len() implies good(#[trigger] after[i]) by {
            assert(good(before[i]));
        }
    }
}

proof fn lemma_limited_good<A: Arithmetic>(
    ar: A,
    sample_rate: u32,
    signal: Seq<u32>,
    n: int,
    samples: Seq<u32>,
    good: spec_fn(u32) -> bool,
)
    requires
        bounds(ar, sample_rate, good),
        limited(ar, signal, n, samples),
    ensures
        all_good(samples, good),
{
    reveal_with_fuel(evaluates, 2);
    assert forall|i: int| 0 <= i < samples.len() implies good(#[trigger] samples[i]) by {
        let a = choose|a: u32|
            evaluates(ar, word(signal[i]), a) && #[trigger] call_ensures(
                A::clamp,
                (&ar, a, MINUS_ONE, ONE),
                samples[i],
            );
        assert(call_ensures(A::clamp, (&ar, a, MINUS_ONE, ONE), samples[i]));
    }
}

proof fn lemma_declicked_good<A: Arithmetic>(
    ar: A,
    sample_rate: u32,
    region: Seq<u32>,
    start: int,
    smoothed: Seq<u32>,
    good: spec_fn(u32) -> bool,
)
    requires
        bounds(ar, sample_rate, good),
        region.len() == BUFFER_REGION_SIZE,
        0 <= start,
        start + 1 < BUFFER_REGION_SIZE,
        all_good(region, good),
        smoothed_samples(ar, sample_rate, region, start, smoothed),
    ensures
        declicked_frames(region, start, smoothed).len() == BUFFER_REGION_SIZE,
        all_good(declicked_frames(region, start, smoothed), good),
    decreases smoothed.len(),
{
    if smoothed.len() > 0 {
        let shorter = smoothed.drop_last();
        let last = smoothed.len() - 1;
        assert forall|k: int| 0 <= k < shorter.len() implies evaluates(
            ar,
            smooth(
                sample_rate,
                region[start + 1],
                declicked_frames(region, start, shorter.take(k))[declick_right(start, k + 1)],
            ),
            #[trigger] shorter[k],
        ) by {
            assert(shorter.take(k) == smoothed.take(k));
            assert(shorter[k] == smoothed[k]);
        }
        lemma_declicked_good(ar, sample_rate, region, start, shorter, good);
        let before = declicked_frames(region, start, shorter);
        let after = declicked_frames(region, start, smoothed);
        assert(smoothed.take(last) == shorter);
        let right = declick_right(start, last + 1);
        assert(0 <= right < BUFFER_REGION_SIZE);
        assert(good(before[right]));
        assert(good(region[start + 1]));
        assert(evaluates(
            ar,
            smooth(sample_rate, region[start + 1], before[right]),
            smoothed[last],
        ));
        assert(good(smoothed[last]));
        assert forall|i: int| 0 <= i < after.len() implies good(#[trigger] after[i]) by {
            assert(good(before[i]));
        }
    }
}

// What a call keeps

/// Sounds of a full chunk each, played at most to their end.
pub open spec fn sounds_in_order(sounds: Seq<Sound>, chunk: int) -> bool {
    forall|i: int|
        0 <= i < sounds.len() ==> (#[trigger] sounds[i]).sample.len() == chunk && 0
            <= sounds[i].position <= chunk
}

/// A player in order: its rack is, its pointer and its region have the right
/// size, its sounds are no longer than a chunk and played at most to their end,
/// and all words of its region have a property.
pub open spec fn in_order(player: PlayerView, chunk: int, good: spec_fn(u32) -> bool) -> bool {
    &&& player.rack.wf()
    &&& 0 <= player.pointer < BUFFER_REGION_SIZE
    &&& player.region.len() == BUFFER_REGION_SIZE
    &&& all_good(player.region, good)
    &&& sounds_in_order(player.sounds, chunk)
}

/// Taking out finished sounds leaves the others as they are.
proof fn lemma_sounding_in_order(sounds: Seq<Sound>, chunk: int)
    requires
        sounds_in_order(sounds, chunk),
    ensures
        sounds_in_order(sounding(sounds), chunk),
    decreases sounds.len(),
{
    reveal(Seq::filter);
    if sounds.len() > 0 {
        let shorter = sounds.drop_last();
        assert forall|i: int| 0 <= i < shorter.len() implies (
        #[trigger] shorter[i]).sample.len() == chunk && 0 <= shorter[i].position <= chunk by {
            assert(shorter[i] == sounds[i]);
        }
        lemma_sounding_in_order(shorter, chunk);
        let before = sounding(shorter);
        let after = sounding(sounds);
        assert(sounds[sounds.len() - 1].sample.len() == chunk);
        assert forall|i: int| 0 <= i < after.len() implies (#[trigger] after[i]).sample.len()
            == chunk && 0 <= after[i].position <= chunk by {
            if i < before.len() {
                assert(after[i] == before[i]);
            }
        }
    }
}

proof fn lemma_sounds_stay_in_order(sounds: Seq<Sound>, chunk: int, n: nat)
    requires
        sounds_in_order(sounds, chunk),
    ensures
        sounds_in_order(sounds_after(sounds, n), chunk),
    decreases n,
{
    if n > 0 {
        let before = sounds_after(sounds, (n - 1) as nat);
        lemma_sounds_stay_in_order(sounds, chunk, (n - 1) as nat);
        lemma_sounding_in_order(before, chunk);
        let left = sounding(before);
        let after = stepped(before);
        assert forall|i: int| 0 <= i < after.len() implies (#[trigger] after[i]).sample.len()
            == chunk && 0 <= after[i].position <= chunk by {
            before.lemma_filter_pred(|s: Sound| s.is_left(), i);
            assert(left[i].sample.len() == chunk);
            assert(after[i] == left[i].stepped());
        }
    }
}

/// A chunk keeps the player in order, and the number of generators as it is.
proof fn lemma_chunk_keeps_order<A: Arithmetic>(
    ar: A,
    sample_rate: u32,
    chunk: int,
    n: int,
    before: PlayerView,
    after: PlayerView,
    good: spec_fn(u32) -> bool,
)
    requires
        bounds(ar, sample_rate, good),
        in_order(before, chunk, good),
        declick_start(before.pointer) + 1 < BUFFER_REGION_SIZE,
        chunk_played(ar, sample_rate, chunk, n, before, after),
    ensures
        in_order(after, chunk, good),
        after.rack.generators.len() == before.rack.generators.len(),
{
    law_rendering_keeps_order(ar, sample_rate, chunk, n, before, after);
    lemma_tuned_len(before.rack.generators, before.rack.notes);
    lemma_chunk_region_good(ar, sample_rate, chunk, n, before, after, good);
    lemma_chunk_sounds(ar, sample_rate, chunk, n, before, after);
    lemma_chunk_keeps(ar, sample_rate, chunk, n, before, after);
}

proof fn lemma_chunk_sounds<A: Arithmetic>(
    ar: A,
    sample_rate: u32,
    chunk: int,
    n: int,
    before: PlayerView,
    after: PlayerView,
)
    requires
        sounds_in_order(before.sounds, chunk),
        chunk_played(ar, sample_rate, chunk, n, before, after),
    ensures
        sounds_in_order(after.sounds, chunk),
{
    reveal(chunk_played);
    let (chunks, dry, out, samples) = choose|
        chunks: Seq<Seq<u32>>,
        dry: Seq<u32>,
        out: Seq<u32>,
        samples: Seq<u32>,
    |
        #[trigger] chunk_steps(
            ar,
            sample_rate,
            chunk,
            n,
            before,
            chunks,
            dry,
            out,
            samples,
            after,
        );
    let all = before.sounds + unplayed(chunks);
    assert(dry.len() >= 0);
    assert forall|i: int| 0 <= i < all.len() implies (#[trigger] all[i]).sample.len() == chunk
        && 0 <= all[i].position <= chunk by {
        let k = before.sounds.len() as int;
        if i < k {
            assert(all[i] == before.sounds[i]);
        } else {
            assert(chunks[i - k].len() == chunk);
        }
    }
    lemma_sounds_stay_in_order(all, chunk, n as nat);
}

proof fn lemma_chunk_region_good<A: Arithmetic>(
    ar: A,
    sample_rate: u32,
    chunk: int,
    n: int,
    before: PlayerView,
    after: PlayerView,
    good: spec_fn(u32) -> bool,
)
    requires
        bounds(ar, sample_rate, good),
        before.region.len() == BUFFER_REGION_SIZE,
        all_good(before.region, good),
        declick_start(before.pointer) + 1 < BUFFER_REGION_SIZE,
        chunk_played(ar, sample_rate, chunk, n, before, after),
    ensures
        after.region.len() == BUFFER_REGION_SIZE,
        all_good(after.region, good),
{
    reveal(chunk_played);
    let (chunks, dry, out, samples) = choose|
        chunks: Seq<Seq<u32>>,
        dry: Seq<u32>,
        out: Seq<u32>,
        samples: Seq<u32>,
    |
        #[trigger] chunk_steps(
            ar,
            sample_rate,
            chunk,
            n,
            before,
            chunks,
            dry,
            out,
            samples,
            after,
        );
    lemma_limited_good(ar, sample_rate, out, n, samples, good);
    lemma_written_good(before.region, before.pointer, samples, good);
    let full = written(before.region, before.pointer, samples);
    let start = declick_start(before.pointer);
    let smoothed = choose|smoothed: Seq<u32>|
        {
            &&& smoothed.len() == DECLICK_SIZE / 2 - 1
            &&& #[trigger] smoothed_samples(ar, sample_rate, full, start, smoothed)
            &&& after.region == declicked_frames(full, start, smoothed)
        };
    lemma_declicked_good(ar, sample_rate, full, start, smoothed, good);
}

proof fn lemma_states_in_order<A: Arithmetic>(
    ar: A,
    sample_rate: u32,
    chunk: int,
    len: int,
    states: Seq<PlayerView>,
    k: int,
    good: spec_fn(u32) -> bool,
)
    requires
        bounds(ar, sample_rate, good),
        len >= 0,
        0 <= k < states.len(),
        (states.len() - 2) * chunk < len,
        chunk_states(ar, sample_rate, chunk, len, states),
        in_order(states[0], chunk, good),
        can_process(states[0], sample_rate, chunk, len),
    ensures
        in_order(states[k], chunk, good),
        states[k].rack.generators.len() == states[0].rack.generators.len(),
    decreases k,
{
    if k > 0 {
        let n = chunk_len(len, chunk, k - 1);
        lemma_states_in_order(ar, sample_rate, chunk, len, states, k - 1, good);
        lemma_pointer_between(ar, sample_rate, chunk, len, states, k - 1);
        lemma_pointer_between(ar, sample_rate, chunk, len, states, k);
        assert((k - 1) * chunk < len);
        assert(chunk_played(ar, sample_rate, chunk, n, states[k - 1], states[k]));
        lemma_chunk_keeps_order(ar, sample_rate, chunk, n, states[k - 1], states[k], good);
    }
}

proof fn lemma_playing_keeps_order<A: Arithmetic>(
    ar: A,
    sample_rate: u32,
    chunk: int,
    len: int,
    before: PlayerView,
    after: PlayerView,
    good: spec_fn(u32) -> bool,
)
    requires
        bounds(ar, sample_rate, good),
        len >= 0,
        in_order(before, chunk, good),
        can_process(before, sample_rate, chunk, len),
        all_played(ar, sample_rate, chunk, len, before, after),
    ensures
        in_order(after, chunk, good),
        after.rack.generators.len() == before.rack.generators.len(),
        after.pointer == (before.pointer + len) % BUFFER_REGION_SIZE as int,
{
    let states = choose|states: Seq<PlayerView>|
        {
            &&& #[trigger] chunk_states(ar, sample_rate, chunk, len, states)
            &&& states[0] == before
            &&& states.last() == after
            &&& (states.len() - 2) * chunk < len <= (states.len() - 1) * chunk
        };
    let last = states.len() - 1;
    lemma_states_in_order(ar, sample_rate, chunk, len, states, last, good);
    lemma_pointer_between(ar, sample_rate, chunk, len, states, last);
}

proof fn lemma_generators_grow(rack: Rack, commands: Seq<AudioCommand>)
    ensures
        rack.after_all(commands).generators.len() >= rack.generators.len(),
    decreases commands.len(),
{
    if commands.len() > 0 {
        lemma_generators_grow(rack, commands.drop_last());
    }
}

/// A call keeps the player in order, whether it renders or not, and takes no
/// generator away. Whatever property limiting brings about and smoothing keeps,
/// such as to lie between -1 and 1, the words of the region keep it, and the
/// samples of a call that renders have it, however many notes and effects there
/// are.
#[verifier::spinoff_prover]
#[verifier::rlimit(40)]
pub proof fn law_call_keeps_order<A: Arithmetic>(
    ar: A,
    sample_rate: u32,
    chunk: int,
    before: PlayerView,
    from: CommandReceiver,
    data: Seq<u32>,
    outcome: Outcome,
    after: PlayerView,
    to: CommandReceiver,
    new_data: Seq<u32>,
    good: spec_fn(u32) -> bool,
)
    requires
        bounds(ar, sample_rate, good),
        in_order(before, chunk, good),
        processed(
            ar,
            sample_rate,
            chunk,
            before,
            from,
            data,
            outcome,
            after,
            to,
            new_data,
        ),
    ensures
        in_order(after, chunk, good),
        after.rack.generators.len() >= before.rack.generators.len(),
        outcome == Outcome::Rendered ==> new_data.len() == data.len() && all_good(new_data, good),
{
    let len = data.len() as int;
    let rack = choose|rack: Rack|
        #[trigger] processed_with(
            ar,
            sample_rate,
            chunk,
            before,
            from,
            data,
            outcome,
            rack,
            after,
            to,
            new_data,
        );
    let verdict = match outcome {
        Outcome::Stopped(verdict) => verdict,
        _ => Verdict::Obeyed,
    };
    assert(drained(before.rack, from, verdict, rack, to));
    let commands = choose|commands: Seq<AudioCommand>|
        #[trigger] drained_with(before.rack, from, commands, verdict, rack, to);
    let told = PlayerView { rack, ..before };
    law_commands_keep_order(before.rack, commands);
    lemma_generators_grow(before.rack, commands);
    assert(in_order(told, chunk, good));
    if outcome == Outcome::Rendered {
        lemma_playing_keeps_order(ar, sample_rate, chunk, len, told, after, good);
        assert forall|i: int| 0 <= i < new_data.len() implies good(#[trigger] new_data[i]) by {
            assert(new_data[i] == after.region[after.pointer + i]);
        }
    }
}

/// A new player is in order, for every property that silence has.
pub proof fn law_silence_is_in_order(chunk: int, good: spec_fn(u32) -> bool)
    requires
        good(ZERO),
    ensures
        in_order(silent_player(), chunk, good),
{
}

// Calls for the same number of samples

/// The next sample is written where a call for `len` samples leads to when all
/// calls so far were for as many.
pub open spec fn even_start(pointer: int, len: int) -> bool {
    &&& 0 <= pointer < BUFFER_REGION_SIZE
    &&& pointer % len == 0
    &&& pointer % 2 == 0
}

/// A call for `len` samples, with whatever came out of the ring, can take the
/// player from `before` to `after`.
pub open spec fn called<A: Arithmetic>(
    ar: A,
    sample_rate: u32,
    chunk: int,
    len: int,
    before: PlayerView,
    outcome: Outcome,
    after: PlayerView,
) -> bool {
    exists|from: CommandReceiver, data: Seq<u32>, to: CommandReceiver, new_data: Seq<u32>|
        data.len() == len && #[trigger] processed(
            ar,
            sample_rate,
            chunk,
            before,
            from,
            data,
            outcome,
            after,
            to,
            new_data,
        )
}

proof fn lemma_even_call<A: Arithmetic>(
    ar: A,
    sample_rate: u32,
    chunk: int,
    len: int,
    before: PlayerView,
    outcome: Outcome,
    after: PlayerView,
)
    requires
        chunk > 0,
        chunk % 2 == 0,
        0 < len <= BUFFER_REGION_SIZE,
        len % 2 == 0,
        BUFFER_REGION_SIZE as int % len == 0,
        even_start(before.pointer, len),
        called(ar, sample_rate, chunk, len, before, outcome, after),
    ensures
        even_start(after.pointer, len),
        outcome == Outcome::Overrun ==> !notes_within(after.rack, sample_rate, chunk, len),
{
    let (from, data, to, new_data) = choose|
        from: CommandReceiver,
        data: Seq<u32>,
        to: CommandReceiver,
        new_data: Seq<u32>,
    |
        data.len() == len && #[trigger] processed(
            ar,
            sample_rate,
            chunk,
            before,
            from,
            data,
            outcome,
            after,
            to,
            new_data,
        );
    let rack = choose|rack: Rack|
        #[trigger] processed_with(
            ar,
            sample_rate,
            chunk,
            before,
            from,
            data,
            outcome,
            rack,
            after,
            to,
            new_data,
        );
    let told = PlayerView { rack, ..before };
    match outcome {
        Outcome::Rendered => {
            law_even_requests_fit(told, sample_rate, chunk, len);
            lemma_all_pointer(ar, sample_rate, chunk, len, told, after);
        },
        Outcome::Stopped(_) => {},
        Outcome::Overrun => {
            if notes_within(rack, sample_rate, chunk, len) {
                law_even_requests_fit(told, sample_rate, chunk, len);
            }
        },
    }
}

pub proof fn lemma_all_pointer<A: Arithmetic>(
    ar: A,
    sample_rate: u32,
    chunk: int,
    len: int,
    before: PlayerView,
    after: PlayerView,
)
    requires
        chunk > 0,
        len >= 0,
        0 <= before.pointer < BUFFER_REGION_SIZE,
        all_played(ar, sample_rate, chunk, len, before, after),
    ensures
        after.pointer == (before.pointer + len) % BUFFER_REGION_SIZE as int,
{
    let states = choose|states: Seq<PlayerView>|
        {
            &&& #[trigger] chunk_states(ar, sample_rate, chunk, len, states)
            &&& states[0] == before
            &&& states.last() == after
            &&& (states.len() - 2) * chunk < len <= (states.len() - 1) * chunk
        };
    lemma_pointer_between(ar, sample_rate, chunk, len, states, states.len() - 1);
}

/// A player that begins at the start of its region and is called for the same
/// number of samples again and again never overruns, as long as its notes can be
/// counted: that number is even and divides the region, such as a power of two,
/// and chunks are a whole number of frames. The rates do not matter, nor what
/// the player is told.
pub proof fn law_equal_calls_fit<A: Arithmetic>(
    ar: A,
    rates: Seq<u32>,
    chunk: int,
    len: int,
    players: Seq<PlayerView>,
    outcomes: Seq<Outcome>,
    t: int,
)
    requires
        chunk > 0,
        chunk % 2 == 0,
        0 < len <= BUFFER_REGION_SIZE,
        len % 2 == 0,
        BUFFER_REGION_SIZE as int % len == 0,
        players.len() == outcomes.len() + 1,
        players[0].pointer == 0,
        forall|k: int|
            0 <= k < outcomes.len() ==> called(
                ar,
                rates[k],
                chunk,
                len,
                players[k],
                #[trigger] outcomes[k],
                players[k + 1],
            ),
        0 <= t < outcomes.len(),
    ensures
        outcomes[t] == Outcome::Overrun ==> !notes_within(
            players[t + 1].rack,
            rates[t],
            chunk,
            len,
        ),
{
    lemma_even_players(ar, rates, chunk, len, players, outcomes, t);
    assert(called(ar, rates[t], chunk, len, players[t], outcomes[t], players[t + 1]));
    lemma_even_call(ar, rates[t], chunk, len, players[t], outcomes[t], players[t + 1]);
}

proof fn lemma_even_players<A: Arithmetic>(
    ar: A,
    rates: Seq<u32>,
    chunk: int,
    len: int,
    players: Seq<PlayerView>,
    outcomes: Seq<Outcome>,
    t: int,
)
    requires
        chunk > 0,
        chunk % 2 == 0,
        0 < len <= BUFFER_REGION_SIZE,
        len % 2 == 0,
        BUFFER_REGION_SIZE as int % len == 0,
        players.len() == outcomes.len() + 1,
        players[0].pointer == 0,
        forall|k: int|
            0 <= k < outcomes.len() ==> called(
                ar,
                rates[k],
                chunk,
                len,
                players[k],
                #[trigger] outcomes[k],
                players[k + 1],
            ),
        0 <= t <= outcomes.len(),
    ensures
        even_start(players[t].pointer, len),
    decreases t,
{
    if t > 0 {
        lemma_even_players(ar, rates, chunk, len, players, outcomes, t - 1);
        let k = t - 1;
        assert(called(ar, rates[k], chunk, len, players[k], outcomes[k], players[k + 1]));
        lemma_even_call(ar, rates[k], chunk, len, players[k], outcomes[k], players[t]);
    } else {
        vstd::arithmetic::div_mod::lemma_small_mod(0, len as nat);
    }
}

} // verus!
