//! The control side and the player agree: a player that has received what the
//! control side sent has the effects that the control side shows.

use vstd::prelude::*;

use crate::arithmetic::{counts, natural, word, Arithmetic};
use crate::command::AudioCommand;
use crate::desk::{key_commands, note_commands, setup_commands};
use crate::effect::{
    delayed, effect_answers, line_length, pointer_after, recorded, EffectDefinition, EffectView,
    BUFFER_SIZE, MAXIMUM_PARAM_INDEX,
};
use crate::generator::{generator_defaults, GeneratorDefinition, GeneratorView};
use crate::gui::{lemma_moved_in_range, lemma_struck_wf, new_gui, GuiView};
use crate::keys::Keycode;
use crate::laws::{law_commands_add_up, law_commands_keep_order, lemma_recorded_len};
use crate::player::{silent_player, PlayerView, Rack, Verdict};
use crate::region::BUFFER_REGION_SIZE;
use crate::render::{
    all_played, blended, chunk_len, chunk_played, chunk_states, chunk_steps,
    lemma_keys_after_chunk, lemma_pointer_between, lemma_tuned, lemma_tuned_len, through,
};

verus! {

/// The player has the effects that the control side shows, at the same values,
/// and at least `generators` generators.
pub open spec fn mirrors(gui: GuiView, rack: Rack, generators: int) -> bool {
    &&& rack.generators.len() >= generators
    &&& rack.effects.len() == gui.effect_stack.len()
    &&& rack.wetness == gui.effect_wetness
    &&& forall|i: int|
        0 <= i < gui.effect_stack.len() ==> {
            &&& (#[trigger] rack.effects[i]).definition == gui.effect_stack[i]
            &&& rack.effects[i].params.take(gui.effect_stack[i].spec_param_count() as int)
                == gui.effect_params[i]
        }
}

/// One command by itself.
proof fn lemma_one_command(rack: Rack, command: AudioCommand)
    ensures
        rack.after_all(seq![command]) == rack.after(command),
        rack.obeys_all(seq![command]) == (rack.verdict(command) == Verdict::Obeyed),
{
    assert(seq![command].drop_last() == Seq::<AudioCommand>::empty());
    assert(rack.after_all(Seq::empty()) == rack);
    assert(rack.obeys_all(Seq::empty()));
}

/// Adding an effect is obeyed, and the player agrees again.
pub proof fn law_adding_is_mirrored(
    gui: GuiView,
    rack: Rack,
    generators: int,
    definition: EffectDefinition,
)
    requires
        mirrors(gui, rack, generators),
        gui.effect_params.len() == gui.effect_stack.len(),
    ensures
        rack.verdict(AudioCommand::NewEffect(definition)) == Verdict::Obeyed,
        mirrors(
            gui.with_effect(definition),
            rack.after(AudioCommand::NewEffect(definition)),
            generators,
        ),
{
    let more = gui.with_effect(definition);
    let after = rack.after(AudioCommand::NewEffect(definition));
    assert forall|i: int| 0 <= i < more.effect_stack.len() implies {
        &&& (#[trigger] after.effects[i]).definition == more.effect_stack[i]
        &&& after.effects[i].params.take(more.effect_stack[i].spec_param_count() as int)
            == more.effect_params[i]
    } by {
        if i < gui.effect_stack.len() {
            assert(after.effects[i] == rack.effects[i]);
        }
    }
}

/// Removing an effect is obeyed, and the player agrees again.
pub proof fn law_removing_is_mirrored(gui: GuiView, rack: Rack, generators: int, index: usize)
    requires
        mirrors(gui, rack, generators),
        gui.effect_params.len() == gui.effect_stack.len(),
        index < gui.effect_stack.len(),
    ensures
        rack.verdict(AudioCommand::DelEffect(index)) == Verdict::Obeyed,
        mirrors(
            gui.without_effect(index as int),
            rack.after(AudioCommand::DelEffect(index)),
            generators,
        ),
{
    let less = gui.without_effect(index as int);
    let after = rack.after(AudioCommand::DelEffect(index));
    assert forall|i: int| 0 <= i < less.effect_stack.len() implies {
        &&& (#[trigger] after.effects[i]).definition == less.effect_stack[i]
        &&& after.effects[i].params.take(less.effect_stack[i].spec_param_count() as int)
            == less.effect_params[i]
    } by {
        if i < index {
            assert(after.effects[i] == rack.effects[i]);
        } else {
            assert(after.effects[i] == rack.effects[i + 1]);
        }
    }
}

/// Setting a value is obeyed, and the player agrees again.
pub proof fn law_setting_is_mirrored(
    gui: GuiView,
    rack: Rack,
    effects: int,
    generators: int,
    value: u32,
)
    requires
        mirrors(gui, rack, generators),
        rack.wf(),
        gui.wf(effects, generators),
        0 < gui.effect_stack.len() <= usize::MAX,
    ensures
        ({
            let command = AudioCommand::SetParam(
                gui.current_effect as usize,
                gui.current_param as usize,
                value,
            );
            &&& rack.verdict(command) == Verdict::Obeyed
            &&& mirrors(gui.with_value(value), rack.after(command), generators)
        }),
{
    let e = gui.current_effect;
    let p = gui.current_param;
    let command = AudioCommand::SetParam(e as usize, p as usize, value);
    let set = gui.with_value(value);
    let after = rack.after(command);
    assert(rack.effects[e].params.len() == MAXIMUM_PARAM_INDEX);
    assert(gui.effect_params[e].len() == gui.effect_stack[e].spec_param_count());
    assert forall|i: int| 0 <= i < set.effect_stack.len() implies {
        &&& (#[trigger] after.effects[i]).definition == set.effect_stack[i]
        &&& after.effects[i].params.take(set.effect_stack[i].spec_param_count() as int)
            == set.effect_params[i]
    } by {
        let before = rack.effects[i];
        let count = gui.effect_stack[i].spec_param_count() as int;
        assert(before.params.take(count) == gui.effect_params[i]);
        if i == e && p > 0 {
            if p - 1 < count {
                assert(before.params.update(p - 1, value).take(count) == before.params.take(
                    count,
                ).update(p - 1, value));
            } else {
                assert(before.params.update(p - 1, value).take(count) == before.params.take(count));
            }
        }
    }
}

/// The notes of a frame are obeyed, and the player agrees still.
pub proof fn law_notes_are_mirrored(
    gui: GuiView,
    rack: Rack,
    generators: int,
    piano: Seq<(Keycode, u32)>,
    pitches: Seq<u32>,
    instrument: usize,
    struck: Seq<Keycode>,
    released: Seq<Keycode>,
)
    requires
        mirrors(gui, rack, generators),
        instrument < generators,
    ensures
        ({
            let commands = note_commands(piano, pitches, instrument, struck, released);
            &&& rack.obeys_all(commands)
            &&& mirrors(gui, rack.after_all(commands), generators)
        }),
    decreases piano.len(),
{
    if piano.len() > 0 {
        let upper = note_commands(
            piano.drop_last(),
            pitches.drop_last(),
            instrument,
            struck,
            released,
        );
        let key = piano.last().0;
        let own = key_commands(key, pitches.last(), instrument, struck, released);
        law_notes_are_mirrored(
            gui,
            rack,
            generators,
            piano.drop_last(),
            pitches.drop_last(),
            instrument,
            struck,
            released,
        );
        law_commands_add_up(rack, upper, own);
        let mid = rack.after_all(upper);
        let press = if struck.contains(key) {
            seq![AudioCommand::Press(instrument, key, pitches.last())]
        } else {
            Seq::<AudioCommand>::empty()
        };
        let release = if released.contains(key) {
            seq![AudioCommand::Release(key)]
        } else {
            Seq::<AudioCommand>::empty()
        };
        law_commands_add_up(mid, press, release);
        lemma_one_command(mid, AudioCommand::Press(instrument, key, pitches.last()));
        lemma_one_command(mid.after_all(press), AudioCommand::Release(key));
        assert(own == press + release);
    }
}

/// What the player is told in a frame is obeyed, and the player agrees again.
pub proof fn law_frame_is_mirrored(
    gui: GuiView,
    rack: Rack,
    piano: Seq<(Keycode, u32)>,
    pitches: Seq<u32>,
    struck: Seq<Keycode>,
    released: Seq<Keycode>,
    bank: Seq<EffectDefinition>,
    generators: int,
)
    requires
        mirrors(gui, rack, generators),
        gui.wf(bank.len() as int, generators),
        generators <= usize::MAX,
        gui.effect_stack.len() <= usize::MAX,
    ensures
        ({
            let (after, edits) = gui.struck(struck, bank, generators);
            let commands = note_commands(
                piano,
                pitches,
                gui.current_instrument as usize,
                struck,
                released,
            ) + edits;
            &&& rack.obeys_all(commands)
            &&& mirrors(after, rack.after_all(commands), generators)
        }),
{
    let (after, edits) = gui.struck(struck, bank, generators);
    let notes = note_commands(piano, pitches, gui.current_instrument as usize, struck, released);
    law_notes_are_mirrored(
        gui,
        rack,
        generators,
        piano,
        pitches,
        gui.current_instrument as usize,
        struck,
        released,
    );
    law_commands_add_up(rack, notes, edits);
    let mid = rack.after_all(notes);
    if edits.len() == 0 {
        assert(edits == Seq::<AudioCommand>::empty());
    } else {
        let there = gui.column_struck(struck);
        match edits[0] {
            AudioCommand::DelEffect(index) => {
                let n = gui.effect_stack.len() as int;
                lemma_moved_in_range(gui.current_effect, n, struck, Keycode::K, Keycode::J);
                let selected = GuiView { current_effect: index as int, ..there };
                assert(mirrors(selected, mid, generators));
                law_removing_is_mirrored(selected, mid, generators, index);
                lemma_one_command(mid, AudioCommand::DelEffect(index));
                assert(edits == seq![AudioCommand::DelEffect(index)]);
            },
            AudioCommand::NewEffect(definition) => {
                let selected = GuiView { current_to_add: after.current_to_add, ..there };
                assert(mirrors(selected, mid, generators));
                law_adding_is_mirrored(selected, mid, generators, definition);
                lemma_one_command(mid, AudioCommand::NewEffect(definition));
                assert(edits == seq![AudioCommand::NewEffect(definition)]);
            },
            _ => {},
        }
    }
}

/// A player that was set up has the generators of the bank, each at its
/// starting values, and agrees with the control side at its start.
pub proof fn law_setup_is_mirrored(bank: Seq<GeneratorDefinition>)
    ensures
        ({
            let rack = silent_player().rack;
            let commands = setup_commands(bank);
            &&& rack.obeys_all(commands)
            &&& rack.after_all(commands).generators == Seq::new(
                bank.len(),
                |i: int|
                    GeneratorView { definition: bank[i], params: generator_defaults(bank[i]) },
            )
            &&& mirrors(new_gui(), rack.after_all(commands), bank.len() as int)
        }),
    decreases bank.len(),
{
    let rack = silent_player().rack;
    let commands = setup_commands(bank);
    let ready = Seq::new(
        bank.len(),
        |i: int| GeneratorView { definition: bank[i], params: generator_defaults(bank[i]) },
    );
    if bank.len() > 0 {
        let shorter = bank.drop_last();
        law_setup_is_mirrored(shorter);
        assert(commands.drop_last() == setup_commands(shorter));
        assert(rack.after_all(commands).generators == ready);
    } else {
        assert(rack.generators == ready);
    }
}

/// An effect that answers keeps its definition and its parameters, and its
/// buffer in order.
proof fn lemma_answer_keeps<A: Arithmetic>(
    ar: A,
    sample_rate: u32,
    before: EffectView,
    dry: Seq<u32>,
    wet: Seq<u32>,
    after: EffectView,
)
    requires
        effect_answers(ar, sample_rate, before, dry, wet, after),
    ensures
        after.definition == before.definition,
        after.params == before.params,
        before.buffer.len() == BUFFER_SIZE && 0 <= before.pointer < BUFFER_SIZE ==> {
            &&& after.buffer.len() == BUFFER_SIZE
            &&& 0 <= after.pointer < BUFFER_SIZE
        },
{
    if before.definition == EffectDefinition::Delay && before.buffer.len() == BUFFER_SIZE && 0
        <= before.pointer < BUFFER_SIZE {
        let t = choose|t: usize|
            {
                let n = line_length(t);
                &&& #[trigger] counts(
                    ar,
                    word(before.params[1]).times(natural(sample_rate as int)),
                    t,
                )
                &&& delayed(ar, before.params[0], n, before.buffer, before.pointer, dry, wet)
                &&& after == EffectView {
                    buffer: recorded(before.buffer, before.pointer, n, wet),
                    pointer: pointer_after(before.pointer, n, wet.len() as int),
                    ..before
                }
            };
        lemma_recorded_len(before.buffer, before.pointer, line_length(t), wet);
        vstd::arithmetic::div_mod::lemma_mod_bound(before.pointer + wet.len(), line_length(t));
    }
}

/// Running a chunk through the effects changes neither an effect's definition
/// nor its parameters.
#[verifier::spinoff_prover]
#[verifier::rlimit(40)]
proof fn lemma_through_keeps<A: Arithmetic>(
    ar: A,
    sample_rate: u32,
    before: Seq<EffectView>,
    wetness: Seq<u32>,
    dry: Seq<u32>,
    out: Seq<u32>,
    after: Seq<EffectView>,
    i: int,
)
    requires
        through(ar, sample_rate, before, wetness, dry, out, after),
        0 <= i < before.len(),
    ensures
        after.len() == before.len(),
        after[i].definition == before[i].definition,
        after[i].params == before[i].params,
        before[i].buffer.len() == BUFFER_SIZE && 0 <= before[i].pointer < BUFFER_SIZE ==> {
            &&& after[i].buffer.len() == BUFFER_SIZE
            &&& 0 <= after[i].pointer < BUFFER_SIZE
        },
    decreases before.len(),
{
    let (mid, wet) = choose|mid: Seq<u32>, wet: Seq<u32>|
        {
            &&& through(
                ar,
                sample_rate,
                before.drop_last(),
                wetness.drop_last(),
                dry,
                mid,
                after.drop_last(),
            )
            &&& #[trigger] effect_answers(ar, sample_rate, before.last(), mid, wet, after.last())
            &&& blended(ar, mid, wet, wetness.last(), out)
        };
    if i < before.len() - 1 {
        lemma_through_keeps(
            ar,
            sample_rate,
            before.drop_last(),
            wetness.drop_last(),
            dry,
            mid,
            after.drop_last(),
            i,
        );
        assert(after.drop_last()[i] == after[i]);
        assert(before.drop_last()[i] == before[i]);
    } else {
        lemma_answer_keeps(ar, sample_rate, before.last(), mid, wet, after.last());
    }
}

/// Rendering does not disturb the agreement.
pub proof fn law_rendering_is_mirrored<A: Arithmetic>(
    ar: A,
    sample_rate: u32,
    chunk: int,
    n: int,
    before: PlayerView,
    after: PlayerView,
    gui: GuiView,
    generators: int,
)
    requires
        before.rack.wf(),
        chunk_played(ar, sample_rate, chunk, n, before, after),
        mirrors(gui, before.rack, generators),
    ensures
        mirrors(gui, after.rack, generators),
{
    reveal(chunk_played);
    let (chunks, dry, out, samples) = choose|
        chunks: Seq<Seq<u32>>,
        dry: Seq<u32>,
        out: Seq<u32>,
        samples: Seq<u32>,
    |
        #[trigger] chunk_steps(
            ar,
            sample_rate,
            chunk,
            n,
            before,
            chunks,
            dry,
            out,
            samples,
            after,
        );
    lemma_tuned_len(before.rack.generators, before.rack.notes);
    assert forall|i: int| 0 <= i < gui.effect_stack.len() implies {
        &&& (#[trigger] after.rack.effects[i]).definition == gui.effect_stack[i]
        &&& after.rack.effects[i].params.take(gui.effect_stack[i].spec_param_count() as int)
            == gui.effect_params[i]
    } by {
        lemma_through_keeps(
            ar,
            sample_rate,
            before.rack.effects,
            before.rack.wetness,
            dry,
            out,
            after.rack.effects,
            i,
        );
        assert(before.rack.effects[i].definition == gui.effect_stack[i]);
    }
}

/// Rendering keeps the rack in order.
pub proof fn law_rendering_keeps_order<A: Arithmetic>(
    ar: A,
    sample_rate: u32,
    chunk: int,
    n: int,
    before: PlayerView,
    after: PlayerView,
)
    requires
        before.rack.wf(),
        chunk_played(ar, sample_rate, chunk, n, before, after),
    ensures
        after.rack.wf(),
{
    reveal(chunk_played);
    let rack = before.rack;
    let (chunks, dry, out, samples) = choose|
        chunks: Seq<Seq<u32>>,
        dry: Seq<u32>,
        out: Seq<u32>,
        samples: Seq<u32>,
    |
        #[trigger] chunk_steps(
            ar,
            sample_rate,
            chunk,
            n,
            before,
            chunks,
            dry,
            out,
            samples,
            after,
        );
    lemma_tuned_len(rack.generators, rack.notes);
    lemma_keys_after_chunk(rack.generators, sample_rate, chunk, rack.notes);
    assert forall|g: int| 0 <= g < after.rack.generators.len() implies (
    #[trigger] after.rack.generators[g]).params.len() == MAXIMUM_PARAM_INDEX by {
        assert(rack.generators[g].params.len() == MAXIMUM_PARAM_INDEX);
        lemma_tuned(rack.generators, rack.notes, g);
    }
    assert forall|i: int| 0 <= i < after.rack.effects.len() implies 0 <= (
    #[trigger] after.rack.effects[i]).pointer < BUFFER_SIZE && after.rack.effects[i].buffer.len()
        == BUFFER_SIZE && after.rack.effects[i].params.len() == MAXIMUM_PARAM_INDEX by {
        assert(0 <= rack.effects[i].pointer < BUFFER_SIZE);
        lemma_through_keeps(
            ar,
            sample_rate,
            rack.effects,
            rack.wetness,
            dry,
            out,
            after.rack.effects,
            i,
        );
    }
    assert(after.rack.effects.len() == rack.effects.len());
}

/// However many chunks are rendered, the player agrees, its rack stays in
/// order, and its pointer moves on by the number of samples, round the region.
pub proof fn law_playing_is_mirrored<A: Arithmetic>(
    ar: A,
    sample_rate: u32,
    chunk: int,
    len: int,
    before: PlayerView,
    after: PlayerView,
    gui: GuiView,
    generators: int,
)
    requires
        chunk > 0,
        len >= 0,
        before.rack.wf(),
        0 <= before.pointer < BUFFER_REGION_SIZE,
        all_played(ar, sample_rate, chunk, len, before, after),
        mirrors(gui, before.rack, generators),
    ensures
        mirrors(gui, after.rack, generators),
        after.rack.wf(),
        after.pointer == (before.pointer + len) % BUFFER_REGION_SIZE as int,
{
    let states = choose|states: Seq<PlayerView>|
        {
            &&& #[trigger] chunk_states(ar, sample_rate, chunk, len, states)
            &&& states[0] == before
            &&& states.last() == after
            &&& (states.len() - 2) * chunk < len <= (states.len() - 1) * chunk
        };
    let last = states.len() - 1;
    lemma_states_mirrored(ar, sample_rate, chunk, len, states, last, gui, generators);
    lemma_pointer_between(ar, sample_rate, chunk, len, states, last);
}

/// The state after `k` chunks.
proof fn lemma_states_mirrored<A: Arithmetic>(
    ar: A,
    sample_rate: u32,
    chunk: int,
    len: int,
    states: Seq<PlayerView>,
    k: int,
    gui: GuiView,
    generators: int,
)
    requires
        0 <= k < states.len(),
        chunk_states(ar, sample_rate, chunk, len, states),
        states[0].rack.wf(),
        mirrors(gui, states[0].rack, generators),
    ensures
        mirrors(gui, states[k].rack, generators),
        states[k].rack.wf(),
    decreases k,
{
    if k > 0 {
        lemma_states_mirrored(ar, sample_rate, chunk, len, states, k - 1, gui, generators);
        let n = chunk_len(len, chunk, k - 1);
        assert(chunk_played(ar, sample_rate, chunk, n, states[k - 1], states[k]));
        law_rendering_is_mirrored(
            ar,
            sample_rate,
            chunk,
            n,
            states[k - 1],
            states[k],
            gui,
            generators,
        );
        law_rendering_keeps_order(ar, sample_rate, chunk, n, states[k - 1], states[k]);
    }
}

/// Something that happens to the control side.
pub enum Event {
    /// A frame begins: keys went down and up, at these pitches.
    Strike(Seq<Keycode>, Seq<Keycode>, Seq<u32>),
    /// The mouse sets a value.
    Slide(u32),
    /// A frame ends in which these keys went down.
    Finish(Seq<Keycode>),
}

/// The control side after an event, and what the player is told.
pub open spec fn happens(
    gui: GuiView,
    event: Event,
    piano: Seq<(Keycode, u32)>,
    bank: Seq<EffectDefinition>,
    generators: int,
) -> (GuiView, Seq<AudioCommand>) {
    match event {
        Event::Strike(struck, released, pitches) => {
            let (after, edits) = gui.struck(struck, bank, generators);
            (
                after,
                note_commands(
                    piano,
                    pitches,
                    gui.current_instrument as usize,
                    struck,
                    released,
                ) + edits,
            )
        },
        Event::Slide(value) => if gui.effect_stack.len() == 0 {
            (gui, Seq::empty())
        } else {
            (
                gui.with_value(value),
                seq![
                    AudioCommand::SetParam(
                        gui.current_effect as usize,
                        gui.current_param as usize,
                        value,
                    ),
                ],
            )
        },
        Event::Finish(struck) => (gui.mode_struck(struck), Seq::empty()),
    }
}

/// The control side after several events, and what the player is told.
pub open spec fn all_happen(
    gui: GuiView,
    events: Seq<Event>,
    piano: Seq<(Keycode, u32)>,
    bank: Seq<EffectDefinition>,
    generators: int,
) -> (GuiView, Seq<AudioCommand>)
    decreases events.len(),
{
    if events.len() == 0 {
        (gui, Seq::empty())
    } else {
        let (mid, commands) = all_happen(gui, events.drop_last(), piano, bank, generators);
        let (after, more) = happens(mid, events.last(), piano, bank, generators);
        (after, commands + more)
    }
}

/// Whatever happens to the control side, a player that has received all that it
/// was told has obeyed all of it and has the effects that the control side
/// shows.
pub proof fn law_player_follows(
    gui: GuiView,
    rack: Rack,
    events: Seq<Event>,
    piano: Seq<(Keycode, u32)>,
    bank: Seq<EffectDefinition>,
    generators: int,
)
    requires
        rack.wf(),
        gui.wf(bank.len() as int, generators),
        mirrors(gui, rack, generators),
        generators <= usize::MAX,
        gui.effect_stack.len() + events.len() <= usize::MAX,
    ensures
        ({
            let (after, commands) = all_happen(gui, events, piano, bank, generators);
            &&& rack.obeys_all(commands)
            &&& rack.after_all(commands).wf()
            &&& mirrors(after, rack.after_all(commands), generators)
            &&& after.wf(bank.len() as int, generators)
            &&& after.effect_stack.len() <= gui.effect_stack.len() + events.len()
        }),
    decreases events.len(),
{
    if events.len() > 0 {
        let earlier = events.drop_last();
        law_player_follows(gui, rack, earlier, piano, bank, generators);
        let (mid, commands) = all_happen(gui, earlier, piano, bank, generators);
        let (after, more) = happens(mid, events.last(), piano, bank, generators);
        let now = rack.after_all(commands);
        law_commands_add_up(rack, commands, more);
        law_commands_keep_order(now, more);
        match events.last() {
            Event::Strike(struck, released, pitches) => {
                law_frame_is_mirrored(
                    mid,
                    now,
                    piano,
                    pitches,
                    struck,
                    released,
                    bank,
                    generators,
                );
                lemma_struck_wf(mid, struck, bank, generators);
            },
            Event::Slide(value) => {
                if mid.effect_stack.len() > 0 {
                    law_setting_is_mirrored(mid, now, bank.len() as int, generators, value);
                    lemma_one_command(now, more[0]);
                    assert(more == seq![more[0]]);
                    assert forall|i: int| 0 <= i < after.effect_stack.len() implies (
                    #[trigger] after.effect_params[i]).len()
                        == after.effect_stack[i].spec_param_count() by {
                        assert(mid.effect_params[i].len() == mid.effect_stack[i].spec_param_count());
                    }
                }
            },
            Event::Finish(_) => {
                assert(mirrors(after, now, generators));
                assert forall|i: int| 0 <= i < after.effect_stack.len() implies (
                #[trigger] after.effect_params[i]).len() == after.effect_stack[i].spec_param_count() by {
                    assert(mid.effect_params[i].len() == mid.effect_stack[i].spec_param_count());
                }
            },
        }
    }
}

} // verus!
