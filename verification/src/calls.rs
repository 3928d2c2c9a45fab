//! What a call for samples does from end to end.

use vstd::prelude::*;

use crate::arithmetic::{Arithmetic, ZERO};
use crate::command::{
    found_empty, offered, offers, received, room, sent, AudioCommand, CommandReceiver,
    CommandSender,
};
use crate::desk::Desk;
use crate::exact::{limit, stands_for, Reading};
use crate::exact_effects::{
    law_effects_in_order, law_region_takes_limited, law_seam_is_smoothed, round, stages,
};
use crate::generator::{countable, GeneratorDefinition, GeneratorView};
use crate::gui::{new_gui, Modes};
use crate::keys::{keys_without, Keycode};
use crate::laws::{law_region_keeps_written, law_room_takes_all};
use crate::mixing::{mixed, sounds_after, Sound};
use crate::player::{
    drained, drained_with, silent_player, NoteData, PlayerView, Rack, Verdict, RING_SIZE,
};
use crate::region::{declicked, limited, written};
use crate::render::{
    all_played, can_process, chunk_played, chunk_steps, note_within, notes_after_chunk,
    one_chunk_on, processed, processed_with, tuned, unplayed, voiced, Outcome,
};

verus! {

// A chunk

/// The sounds of a chunk: those that were left, and a new one of each note.
pub open spec fn sounds_of_chunk(before: PlayerView, chunks: Seq<Seq<u32>>) -> Seq<Sound> {
    Seq::new(
        before.sounds.len() + chunks.len(),
        |i: int|
            if i < before.sounds.len() {
                before.sounds[i]
            } else {
                Sound { sample: chunks[i - before.sounds.len()], position: 0 }
            },
    )
}

/// The signals of a chunk of `n` samples: each note sounds as one of `chunks`,
/// these and what was left are mixed, and the mix passes the effects one by one.
pub open spec fn signals_of_chunk<A: Arithmetic>(
    ar: A,
    sample_rate: u32,
    chunk: int,
    n: int,
    before: PlayerView,
    chunks: Seq<Seq<u32>>,
    signals: Seq<Seq<u32>>,
    wets: Seq<Seq<u32>>,
    after: PlayerView,
) -> bool {
    &&& voiced(ar, sample_rate, chunk, before.rack.generators, before.rack.notes, chunks)
    &&& signals.len() == before.rack.effects.len() + 1
    &&& signals[0].len() == chunk
    &&& mixed(ar, sounds_of_chunk(before, chunks), n, signals[0])
    &&& stages(
        ar,
        sample_rate,
        before.rack.effects,
        before.rack.wetness,
        signals,
        wets,
        after.rack.effects,
    )
}

/// A chunk from end to end: the notes and what was left of earlier sounds are
/// mixed and pass the effects, and what comes out stands in the region, kept
/// between -1 and 1, from the pointer on; the first four samples are smoothed
/// besides. The pointer moves on by the number of samples. Wetness and the
/// number of generators stay.
pub proof fn law_chunk_from_end_to_end<A: Arithmetic>(
    ar: A,
    sample_rate: u32,
    chunk: int,
    n: int,
    before: PlayerView,
    after: PlayerView,
)
    requires
        chunk_played(ar, sample_rate, chunk, n, before, after),
        before.rack.wf(),
        before.region.len() == 2048,
        0 <= before.pointer < 2048,
        before.pointer != 3,
        0 <= n <= 2046,
    ensures
        after.pointer == (before.pointer + n) % 2048,
        after.rack.wetness == before.rack.wetness,
        exists|chunks: Seq<Seq<u32>>, signals: Seq<Seq<u32>>, wets: Seq<Seq<u32>>|
            {
                &&& #[trigger] signals_of_chunk(
                    ar,
                    sample_rate,
                    chunk,
                    n,
                    before,
                    chunks,
                    signals,
                    wets,
                    after,
                )
                &&& forall|d: int|
                    4 <= d < n ==> in_region(ar, signals.last()[d], after.region[#[trigger] round(
                        before.pointer,
                        d,
                    )])
            },
{
    reveal(chunk_played);
    let (chunks, dry, out, samples) = choose|
        chunks: Seq<Seq<u32>>,
        dry: Seq<u32>,
        out: Seq<u32>,
        samples: Seq<u32>,
    |
        #[trigger] chunk_steps(
            ar,
            sample_rate,
            chunk,
            n,
            before,
            chunks,
            dry,
            out,
            samples,
            after,
        );
    let rack = before.rack;
    assert(before.sounds + unplayed(chunks) == sounds_of_chunk(before, chunks));
    law_effects_in_order(
        ar,
        sample_rate,
        rack.effects,
        rack.wetness,
        dry,
        out,
        after.rack.effects,
    );
    let (signals, wets) = choose|signals: Seq<Seq<u32>>, wets: Seq<Seq<u32>>|
        {
            &&& #[trigger] stages(
                ar,
                sample_rate,
                rack.effects,
                rack.wetness,
                signals,
                wets,
                after.rack.effects,
            )
            &&& signals[0] == dry
            &&& signals.last() == out
        };
    assert(signals_of_chunk(
        ar,
        sample_rate,
        chunk,
        n,
        before,
        chunks,
        signals,
        wets,
        after,
    ));
    lemma_in_region(ar, sample_rate, n, before, out, samples, after.region);
}

/// A word of the region stands for a word of the signal, kept between -1 and 1.
pub open spec fn in_region<A: Arithmetic>(ar: A, signal: u32, word: u32) -> bool {
    stands_for(ar, word, |m: Reading| limit((m.word)(signal), -(1 as real), 1 as real))
}

proof fn lemma_in_region<A: Arithmetic>(
    ar: A,
    sample_rate: u32,
    n: int,
    before: PlayerView,
    out: Seq<u32>,
    samples: Seq<u32>,
    region: Seq<u32>,
)
    requires
        before.region.len() == 2048,
        0 <= before.pointer < 2048,
        before.pointer != 3,
        0 <= n <= 2046,
        limited(ar, out, n, samples),
        declicked(
            ar,
            sample_rate,
            before.pointer,
            written(before.region, before.pointer, samples),
            region,
        ),
    ensures
        forall|d: int|
            4 <= d < n ==> in_region(ar, out[d], region[#[trigger] round(before.pointer, d)]),
{
    let p = before.pointer;
    let full = written(before.region, p, samples);
    lemma_full_len(before.region, p, samples);
    law_seam_is_smoothed(ar, sample_rate, p, full, region);
    assert forall|d: int| 4 <= d < n implies in_region(
        ar,
        out[d],
        region[#[trigger] round(p, d)],
    ) by {
        law_region_keeps_written(before.region, p, samples, d);
        law_region_takes_limited(ar, out, n, samples, d);
        assert(region[round(p, d)] == full[round(p, d)]);
    }
}

proof fn lemma_full_len(region: Seq<u32>, pointer: int, samples: Seq<u32>)
    requires
        region.len() == 2048,
    ensures
        written(region, pointer, samples).len() == 2048,
    decreases samples.len(),
{
    if samples.len() > 0 {
        lemma_full_len(region, pointer, samples.drop_last());
    }
}

// A call

/// The racks between some commands, each obeyed after the other.
pub open spec fn told_one_by_one(racks: Seq<Rack>, commands: Seq<AudioCommand>) -> bool {
    &&& racks.len() == commands.len() + 1
    &&& forall|k: int|
        0 <= k < commands.len() ==> racks[k + 1] == racks[k].after(#[trigger] commands[k])
}

/// The commands before place `n` are obeyed.
pub open spec fn obeyed_before(racks: Seq<Rack>, commands: Seq<AudioCommand>, n: int) -> bool {
    forall|k: int|
        0 <= k < n ==> racks[k].verdict(#[trigger] commands[k]) == Verdict::Obeyed
}

/// Reading the ring takes the commands one by one, in order. It ends when the
/// ring is found empty, or with the first command that is not obeyed, which
/// changes nothing.
pub proof fn law_reading_stops_where_it_must(
    before: Rack,
    from: CommandReceiver,
    verdict: Verdict,
    after: Rack,
    to: CommandReceiver,
)
    requires
        drained(before, from, verdict, after, to),
    ensures
        exists|racks: Seq<Rack>, commands: Seq<AudioCommand>|
            {
                &&& #[trigger] told_one_by_one(racks, commands)
                &&& racks[0] == before
                &&& racks.last() == after
                &&& received(to) == received(from) + commands
                &&& verdict == Verdict::Obeyed ==> {
                    &&& obeyed_before(racks, commands, commands.len() as int)
                    &&& found_empty(to) == found_empty(from) + 1
                }
                &&& verdict != Verdict::Obeyed ==> {
                    &&& commands.len() > 0
                    &&& obeyed_before(racks, commands, commands.len() - 1)
                    &&& racks[commands.len() - 1].verdict(commands.last()) == verdict
                    &&& after == racks[commands.len() - 1]
                    &&& found_empty(to) == found_empty(from)
                }
            },
{
    let commands = choose|commands: Seq<AudioCommand>|
        #[trigger] drained_with(before, from, commands, verdict, after, to);
    let racks = Seq::new(commands.len() + 1, |k: int| before.after_all(commands.take(k)));
    assert forall|k: int| 0 <= k < commands.len() implies racks[k + 1] == racks[k].after(
        #[trigger] commands[k],
    ) by {
        assert(commands.take(k + 1).drop_last() == commands.take(k));
    }
    assert(commands.take(commands.len() as int) == commands);
    assert(told_one_by_one(racks, commands));
    if verdict == Verdict::Obeyed {
        lemma_obeyed_one_by_one(before, commands);
    } else {
        let earlier = commands.drop_last();
        lemma_obeyed_one_by_one(before, earlier);
        assert(commands.take(commands.len() - 1) == earlier);
        assert forall|k: int| 0 <= k < commands.len() - 1 implies racks[k].verdict(
            #[trigger] commands[k],
        ) == Verdict::Obeyed by {
            assert(earlier.take(k) == commands.take(k));
            assert(before.after_all(earlier.take(k)).verdict(earlier[k]) == Verdict::Obeyed);
        }
    }
}

proof fn lemma_obeyed_one_by_one(rack: Rack, commands: Seq<AudioCommand>)
    requires
        rack.obeys_all(commands),
    ensures
        forall|k: int|
            0 <= k < commands.len() ==> rack.after_all(commands.take(k)).verdict(
                #[trigger] commands[k],
            ) == Verdict::Obeyed,
    decreases commands.len(),
{
    if commands.len() > 0 {
        let shorter = commands.drop_last();
        lemma_obeyed_one_by_one(rack, shorter);
        assert forall|k: int| 0 <= k < commands.len() implies rack.after_all(
            commands.take(k),
        ).verdict(#[trigger] commands[k]) == Verdict::Obeyed by {
            if k < shorter.len() {
                assert(shorter.take(k) == commands.take(k));
                assert(rack.after_all(shorter.take(k)).verdict(shorter[k]) == Verdict::Obeyed);
            } else {
                assert(commands.take(k) == shorter);
            }
        }
    }
}

/// What became of a call for `len` samples whose commands led to `rack`: it
/// stopped if one of them was not obeyed, it overran if the samples cannot be
/// rendered, and else it rendered them.
pub open spec fn comes_to<A: Arithmetic>(
    ar: A,
    sample_rate: u32,
    chunk: int,
    before: PlayerView,
    from: CommandReceiver,
    len: int,
    outcome: Outcome,
    rack: Rack,
    after: PlayerView,
    to: CommandReceiver,
) -> bool {
    let told = PlayerView { rack, ..before };
    let fits = can_process(told, sample_rate, chunk, len);
    match outcome {
        Outcome::Rendered => {
            &&& drained(before.rack, from, Verdict::Obeyed, rack, to)
            &&& fits
            &&& all_played(ar, sample_rate, chunk, len, told, after)
        },
        Outcome::Overrun => {
            &&& drained(before.rack, from, Verdict::Obeyed, rack, to)
            &&& !fits
            &&& after.rack == rack
        },
        Outcome::Stopped(verdict) => {
            &&& verdict != Verdict::Obeyed
            &&& drained(before.rack, from, verdict, rack, to)
            &&& after.rack == rack
        },
    }
}

/// What a call for `len` samples comes to: if the commands were obeyed and the
/// samples can be rendered, they are, and what is handed out is the region from
/// the pointer on, which moved on by their number. Otherwise nothing is rendered
/// and nothing is handed out.
#[verifier::spinoff_prover]
#[verifier::rlimit(40)]
pub proof fn law_call_from_end_to_end<A: Arithmetic>(
    ar: A,
    sample_rate: u32,
    chunk: int,
    before: PlayerView,
    from: CommandReceiver,
    data: Seq<u32>,
    outcome: Outcome,
    after: PlayerView,
    to: CommandReceiver,
    new_data: Seq<u32>,
)
    requires
        0 <= before.pointer < 2048,
        processed(
            ar,
            sample_rate,
            chunk,
            before,
            from,
            data,
            outcome,
            after,
            to,
            new_data,
        ),
    ensures
        new_data.len() == data.len(),
        outcome == Outcome::Rendered ==> {
            &&& after.pointer == (before.pointer + data.len()) % 2048
            &&& after.pointer + data.len() <= 2048
            &&& forall|i: int|
                0 <= i < data.len() ==> #[trigger] new_data[i] == after.region[after.pointer + i]
        },
        outcome != Outcome::Rendered ==> {
            &&& new_data == data
            &&& after.region == before.region
            &&& after.pointer == before.pointer
            &&& after.sounds == before.sounds
        },
        exists|rack: Rack|
            #[trigger] comes_to(
                ar,
                sample_rate,
                chunk,
                before,
                from,
                data.len() as int,
                outcome,
                rack,
                after,
                to,
            ),
{
    let len = data.len() as int;
    let rack = choose|rack: Rack|
        #[trigger] processed_with(
            ar,
            sample_rate,
            chunk,
            before,
            from,
            data,
            outcome,
            rack,
            after,
            to,
            new_data,
        );
    let told = PlayerView { rack, ..before };
    if outcome == Outcome::Rendered {
        crate::lasting::lemma_all_pointer(ar, sample_rate, chunk, len, told, after);
    }
    assert(comes_to(
        ar,
        sample_rate,
        chunk,
        before,
        from,
        len,
        outcome,
        rack,
        after,
        to,
    ));
}

/// All commands that are offered to the ring reach it, in order, whether it
/// takes them or not.
pub proof fn law_offers_reach_the_ring(
    before: CommandSender,
    commands: Seq<AudioCommand>,
    after: CommandSender,
)
    requires
        offered(before, commands, after),
    ensures
        offers(after) == offers(before) + commands,
{
}

// Limits

/// A chunk can be counted if its samples can be, as far as the generator counts
/// them: a held sine and a saw count them in `usize`, from the count of chunks
/// cut to that; a sine always and a released saw count them in `u128` too; the
/// noise does not count them.
pub proof fn law_when_chunk_counts(
    definition: GeneratorDefinition,
    chunk: int,
    chunk_index: u128,
    is_pressed: bool,
)
    ensures
        countable(definition, chunk, chunk_index, is_pressed) == match definition {
            GeneratorDefinition::SineOsc => chunk_index * chunk <= u128::MAX && (!is_pressed || (
            chunk_index as usize) * chunk + (chunk - 1) <= usize::MAX),
            GeneratorDefinition::DetunedSaw => (is_pressed || chunk_index * chunk <= u128::MAX) && (
            chunk_index as usize) * chunk + (chunk - 1) <= usize::MAX,
            GeneratorDefinition::WhiteNoise => true,
        },
{
}

/// The samples of a held note can be counted exactly if each of its chunks can:
/// those that begin within them.
pub proof fn law_when_held_note_counts(
    rack: Rack,
    sample_rate: u32,
    chunk: int,
    key: Keycode,
    note: NoteData,
    len: int,
)
    requires
        chunk > 0,
        note.is_pressed,
    ensures
        note_within(rack, sample_rate, chunk, (key, note), len) == (forall|k: int|
            0 <= k && #[trigger] (k * chunk) < len ==> note.current_chunk + k < u128::MAX
                && countable(
                rack.generators[note.instrument as int].definition,
                chunk,
                (note.current_chunk + k) as u128,
                true,
            )),
    decreases
        (if len > 0 {
            len
        } else {
            0
        }),
{
    let definition = rack.generators[note.instrument as int].definition;
    let c = note.current_chunk as int;
    if len <= 0 {
        assert forall|k: int| 0 <= k && #[trigger] (k * chunk) < len implies c + k < u128::MAX
            && countable(definition, chunk, (c + k) as u128, true) by {
            assert(k * chunk >= 0) by (nonlinear_arith)
                requires
                    k >= 0,
                    chunk > 0,
            ;
        }
    } else {
        let next = one_chunk_on((key, note)).1;
        law_when_held_note_counts(rack, sample_rate, chunk, key, next, len - chunk);
        let now = c < u128::MAX && countable(definition, chunk, note.current_chunk, true);
        assert(0 * chunk == 0);
        if forall|k: int|
            0 <= k && #[trigger] (k * chunk) < len ==> c + k < u128::MAX && countable(
                definition,
                chunk,
                (c + k) as u128,
                true,
            ) {
            assert(0 * chunk < len);
            assert(now);
            assert forall|k: int| 0 <= k && #[trigger] (k * chunk) < len - chunk implies c + 1 + k
                < u128::MAX && countable(definition, chunk, (c + 1 + k) as u128, true) by {
                assert((k + 1) * chunk == k * chunk + chunk) by (nonlinear_arith);
                assert((k + 1) * chunk < len);
            }
        }
        if note_within(rack, sample_rate, chunk, (key, note), len) {
            assert forall|k: int| 0 <= k && #[trigger] (k * chunk) < len implies c + k < u128::MAX
                && countable(definition, chunk, (c + k) as u128, true) by {
                if k > 0 {
                    assert(k * chunk == (k - 1) * chunk + chunk) by (nonlinear_arith);
                    assert((k - 1) * chunk < len - chunk);
                }
            }
        }
    }
}

/// A frame cannot begin exactly if the octave would leave its range: in perform
/// mode, down from the lowest, or up from the highest without having gone down.
pub proof fn law_when_frame_can_begin(desk: Desk, keys: Seq<Keycode>)
    ensures
        ({
            let struck = keys_without(keys, desk.pressed@);
            let left = struck.contains(Keycode::Left);
            let right = struck.contains(Keycode::Right);
            desk.octave_can_move(keys) == !(desk.gui.mode == Modes::PERFORM && ((left
                && desk.gui.current_octave == i32::MIN) || (right && !left
                && desk.gui.current_octave == i32::MAX)))
        }),
{
}

// What a chunk leaves behind

/// After a chunk each generator is as it was, but that its pitch is that of the
/// last note it sounded, if it sounded any.
pub proof fn law_generator_keeps_last_pitch<A: Arithmetic>(
    ar: A,
    sample_rate: u32,
    chunk: int,
    n: int,
    before: PlayerView,
    after: PlayerView,
    g: int,
)
    requires
        chunk_played(ar, sample_rate, chunk, n, before, after),
        before.rack.wf(),
        0 <= g < before.rack.generators.len(),
    ensures
        ({
            let was = before.rack.generators[g];
            let is = after.rack.generators[g];
            let notes = before.rack.notes;
            &&& after.rack.generators.len() == before.rack.generators.len()
            &&& is.definition == was.definition
            &&& is.params.len() == 64
            &&& forall|k: int| 1 <= k < 64 ==> #[trigger] is.params[k] == was.params[k]
            &&& is.params[0] == was.params[0] || exists|i: int|
                0 <= i < notes.len() && (#[trigger] notes[i]).1.instrument == g
            &&& forall|i: int|
                0 <= i < notes.len() && notes[i].1.instrument == g && (forall|j: int|
                    i < j < notes.len() ==> (#[trigger] notes[j]).1.instrument != g)
                    ==> is.params[0] == (#[trigger] notes[i]).1.pitch
        }),
{
    reveal(chunk_played);
    lemma_tuned_pitch(before.rack.generators, before.rack.notes, g);
}

#[verifier::spinoff_prover]
#[verifier::rlimit(40)]
proof fn lemma_tuned_pitch(
    generators: Seq<GeneratorView>,
    notes: Seq<(Keycode, NoteData)>,
    g: int,
)
    requires
        0 <= g < generators.len(),
        generators[g].params.len() == 64,
        forall|i: int|
            0 <= i < notes.len() ==> (#[trigger] notes[i]).1.instrument < generators.len(),
    ensures
        ({
            let is = tuned(generators, notes)[g];
            &&& tuned(generators, notes).len() == generators.len()
            &&& is.definition == generators[g].definition
            &&& is.params.len() == 64
            &&& forall|k: int| 1 <= k < 64 ==> #[trigger] is.params[k] == generators[g].params[k]
            &&& is.params[0] == generators[g].params[0] || exists|i: int|
                0 <= i < notes.len() && (#[trigger] notes[i]).1.instrument == g
            &&& forall|i: int|
                0 <= i < notes.len() && notes[i].1.instrument == g && (forall|j: int|
                    i < j < notes.len() ==> (#[trigger] notes[j]).1.instrument != g)
                    ==> is.params[0] == (#[trigger] notes[i]).1.pitch
        }),
    decreases notes.len(),
{
    if notes.len() > 0 {
        let last = notes.len() - 1;
        let shorter = notes.drop_last();
        assert(notes[last].1.instrument < generators.len());
        assert forall|i: int| 0 <= i < shorter.len() implies (#[trigger] shorter[i]).1.instrument
            < generators.len() by {
            assert(shorter[i] == notes[i]);
        }
        lemma_tuned_pitch(generators, shorter, g);
        let is = tuned(generators, notes)[g];
        if notes[last].1.instrument != g {
            if exists|i: int| 0 <= i < shorter.len() && (#[trigger] shorter[i]).1.instrument == g {
                let i = choose|i: int|
                    0 <= i < shorter.len() && (#[trigger] shorter[i]).1.instrument == g;
                assert(notes[i].1.instrument == g);
            }
        }
        assert forall|i: int|
            0 <= i < notes.len() && notes[i].1.instrument == g && (forall|j: int|
                i < j < notes.len() ==> (#[trigger] notes[j]).1.instrument
                    != g) implies is.params[0] == (#[trigger] notes[i]).1.pitch by {
            if i < last {
                assert(shorter[i] == notes[i]);
                assert forall|j: int| i < j < shorter.len() implies (
                #[trigger] shorter[j]).1.instrument != g by {
                    assert(shorter[j] == notes[j]);
                }
            }
        }
    }
}

/// After a chunk of `n` samples the notes are one chunk on, and of the sounds that
/// were mixed each is `n` samples on, as far as anything is left of it.
pub proof fn law_chunk_moves_on<A: Arithmetic>(
    ar: A,
    sample_rate: u32,
    chunk: int,
    n: int,
    before: PlayerView,
    after: PlayerView,
)
    requires
        chunk_played(ar, sample_rate, chunk, n, before, after),
        0 <= n,
    ensures
        after.rack.notes == notes_after_chunk(
            before.rack.generators,
            sample_rate,
            chunk,
            before.rack.notes,
        ),
        exists|chunks: Seq<Seq<u32>>|
            {
                &&& #[trigger] voiced(
                    ar,
                    sample_rate,
                    chunk,
                    before.rack.generators,
                    before.rack.notes,
                    chunks,
                )
                &&& after.sounds == sounds_after(sounds_of_chunk(before, chunks), n as nat)
            },
{
    reveal(chunk_played);
    let (chunks, dry, out, samples) = choose|
        chunks: Seq<Seq<u32>>,
        dry: Seq<u32>,
        out: Seq<u32>,
        samples: Seq<u32>,
    |
        #[trigger] chunk_steps(
            ar,
            sample_rate,
            chunk,
            n,
            before,
            chunks,
            dry,
            out,
            samples,
            after,
        );
    assert(before.sounds + unplayed(chunks) == sounds_of_chunk(before, chunks));
    assert(voiced(
        ar,
        sample_rate,
        chunk,
        before.rack.generators,
        before.rack.notes,
        chunks,
    ));
}

// The start

/// A new player has heard and played nothing, and the control side starts in
/// perform mode, at the middle octave, with the first of everything selected, in
/// the column of the effects to add, and without effects.
pub proof fn law_start()
    ensures
        silent_player().rack.notes.len() == 0,
        silent_player().rack.generators.len() == 0,
        silent_player().rack.effects.len() == 0,
        silent_player().rack.wetness.len() == 0,
        silent_player().sounds.len() == 0,
        silent_player().pointer == 0,
        silent_player().region.len() == 2048,
        forall|i: int| 0 <= i < 2048 ==> #[trigger] silent_player().region[i] == ZERO,
        new_gui().mode == Modes::PERFORM,
        new_gui().throttle_ms == 50,
        new_gui().edit_column == 1,
        new_gui().current_octave == 0,
        new_gui().current_instrument == 0,
        new_gui().current_effect == 0,
        new_gui().current_param == 0,
        new_gui().current_to_add == 0,
        new_gui().effect_stack.len() == 0,
        new_gui().effect_params.len() == 0,
        new_gui().effect_wetness.len() == 0,
{
}

/// A new ring has room for 64 commands: as many are taken, in order, though none is
/// read.
pub proof fn law_new_ring_takes_64(
    before: CommandSender,
    commands: Seq<AudioCommand>,
    after: CommandSender,
)
    requires
        offered(before, commands, after),
        sent(before) == Seq::<AudioCommand>::empty(),
        room(before) == RING_SIZE,
    ensures
        room(after) == 64,
        commands.len() <= 64 ==> sent(after) == commands,
{
    if commands.len() <= 64 {
        law_room_takes_all(before, commands, after);
        assert(sent(before) + commands == commands);
    }
}

} // verus!
