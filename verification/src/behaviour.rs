//! What each command, each key and each chunk does, place by place.

use vstd::prelude::*;

use crate::arithmetic::{Arithmetic, HALF, ONE, QUARTER, ZERO};
use crate::command::AudioCommand;
use crate::effect::{EffectDefinition, ONE_SIXTY_FOURTH};
use crate::generator::{
    is_finished, sounds_like, GeneratorDefinition, GeneratorView, CONCERT_PITCH, SIX_TENTHS,
};
use crate::gui::{moved, starting_params, GuiView, Modes};
use crate::keys::Keycode;
use crate::player::{has_note, NoteData, PlayerView, Rack, Verdict};
use crate::region::declick_start;
use crate::render::{
    all_played, can_process, chunk_len, chunk_played, chunk_states, notes_after_chunk,
    notes_within, voiced,
};
use crate::laws::law_note_goes_on;

verus! {

// Commands

/// A command is obeyed if what it names is there: a generator for a press, an
/// effect and one of 65 values for a value, an effect for one that goes. A
/// missing effect that is told to go is told apart.
pub proof fn law_obeyed_if_there(rack: Rack, command: AudioCommand)
    ensures
        command is NewGenerator || command is Release || command is NewEffect ==> rack.verdict(
            command,
        ) == Verdict::Obeyed,
        command matches AudioCommand::Press(g, _, _) ==> rack.verdict(command) == if g
            < rack.generators.len() {
            Verdict::Obeyed
        } else {
            Verdict::Refused
        },
        command matches AudioCommand::DelEffect(i) ==> rack.verdict(command) == if i
            < rack.effects.len() {
            Verdict::Obeyed
        } else {
            Verdict::MissingEffect
        },
        command matches AudioCommand::SetParam(i, k, _) ==> rack.verdict(command) == if i
            < rack.effects.len() && k < 65 {
            Verdict::Obeyed
        } else {
            Verdict::Refused
        },
{
}

/// A press gives its key a held note of the generator that begins anew. A key
/// that still sounds keeps its pitch, another gets the given one. No other note
/// and nothing else is touched.
pub proof fn law_press_starts_note(rack: Rack, g: usize, key: Keycode, pitch: u32)
    requires
        rack.wf(),
        g < rack.generators.len(),
    ensures
        ({
            let after = rack.after(AudioCommand::Press(g, key, pitch));
            let more: int = if has_note(rack.notes, key) {
                0
            } else {
                1
            };
            &&& after.generators == rack.generators
            &&& after.effects == rack.effects
            &&& after.wetness == rack.wetness
            &&& after.notes.len() == rack.notes.len() + more
            &&& forall|i: int|
                0 <= i < rack.notes.len() ==> (#[trigger] after.notes[i]) == if rack.notes[i].0
                    == key {
                    (
                        key,
                        NoteData {
                            instrument: g,
                            is_pressed: true,
                            pitch: rack.notes[i].1.pitch,
                            current_chunk: 0,
                        },
                    )
                } else {
                    rack.notes[i]
                }
            &&& more == 1 ==> after.notes.last() == (
                key,
                NoteData { instrument: g, is_pressed: true, pitch, current_chunk: 0 },
            )
        }),
{
}

/// A release lets the note of its key die from its start, at its pitch and with
/// its generator. No other note and nothing else is touched.
pub proof fn law_release_lets_note_die(rack: Rack, key: Keycode)
    ensures
        ({
            let after = rack.after(AudioCommand::Release(key));
            &&& after.generators == rack.generators
            &&& after.effects == rack.effects
            &&& after.wetness == rack.wetness
            &&& after.notes.len() == rack.notes.len()
            &&& forall|i: int|
                0 <= i < rack.notes.len() ==> (#[trigger] after.notes[i]) == if rack.notes[i].0
                    == key {
                    (
                        key,
                        NoteData {
                            instrument: rack.notes[i].1.instrument,
                            is_pressed: false,
                            pitch: rack.notes[i].1.pitch,
                            current_chunk: 0,
                        },
                    )
                } else {
                    rack.notes[i]
                }
        }),
{
}

/// A new generator comes behind the others, at concert pitch, at half the volume
/// for a sine and a quarter for the others, and with a decay of six tenths.
pub proof fn law_new_generator_is_last(rack: Rack, definition: GeneratorDefinition)
    ensures
        ({
            let after = rack.after(AudioCommand::NewGenerator(definition));
            let made = after.generators.last();
            &&& after.notes == rack.notes
            &&& after.effects == rack.effects
            &&& after.wetness == rack.wetness
            &&& after.generators == rack.generators.push(made)
            &&& made.definition == definition
            &&& made.params.len() == 64
            &&& made.params[0] == CONCERT_PITCH
            &&& made.params[1] == match definition {
                GeneratorDefinition::SineOsc => HALF,
                GeneratorDefinition::DetunedSaw => QUARTER,
                GeneratorDefinition::WhiteNoise => QUARTER,
            }
            &&& made.params[2] == SIX_TENTHS
            &&& forall|k: int| 3 <= k < 64 ==> #[trigger] made.params[k] == ZERO
        }),
{
    let after = rack.after(AudioCommand::NewGenerator(definition));
    assert(after.generators == rack.generators.push(after.generators.last()));
}

/// A new effect comes behind the others, fully wet, with a silent buffer: a
/// delay of a quarter of a second without volume, a clip with gains that cancel
/// out, a panning to the middle.
pub proof fn law_new_effect_is_last(rack: Rack, definition: EffectDefinition)
    ensures
        ({
            let after = rack.after(AudioCommand::NewEffect(definition));
            let made = after.effects.last();
            &&& after.notes == rack.notes
            &&& after.generators == rack.generators
            &&& after.effects == rack.effects.push(made)
            &&& after.wetness == rack.wetness.push(ONE)
            &&& made.definition == definition
            &&& made.pointer == 0
            &&& made.buffer.len() == 65536
            &&& forall|k: int| 0 <= k < 65536 ==> #[trigger] made.buffer[k] == ZERO
            &&& made.params.len() == 64
            &&& made.params[0] == match definition {
                EffectDefinition::Delay => ZERO,
                EffectDefinition::HardClip => ONE_SIXTY_FOURTH,
                EffectDefinition::Pan => HALF,
            }
            &&& made.params[1] == match definition {
                EffectDefinition::Delay => QUARTER,
                EffectDefinition::HardClip => ONE,
                EffectDefinition::Pan => ZERO,
            }
            &&& forall|k: int| 2 <= k < 64 ==> #[trigger] made.params[k] == ZERO
        }),
{
    let after = rack.after(AudioCommand::NewEffect(definition));
    assert(after.effects == rack.effects.push(after.effects.last()));
}

/// When an effect goes, it goes with its wetness; those before it stay, those
/// behind it move up, each with its own.
pub proof fn law_effects_move_up(rack: Rack, index: usize)
    requires
        rack.wf(),
        index < rack.effects.len(),
    ensures
        ({
            let after = rack.after(AudioCommand::DelEffect(index));
            &&& after.notes == rack.notes
            &&& after.generators == rack.generators
            &&& after.effects.len() == rack.effects.len() - 1
            &&& after.wetness.len() == rack.wetness.len() - 1
            &&& forall|i: int|
                0 <= i < index ==> (#[trigger] after.effects[i]) == rack.effects[i]
                    && after.wetness[i] == rack.wetness[i]
            &&& forall|i: int|
                index <= i < after.effects.len() ==> (#[trigger] after.effects[i])
                    == rack.effects[i + 1] && after.wetness[i] == rack.wetness[i + 1]
        }),
{
}

/// A value is set where it belongs and nowhere else: number 0 is the wetness,
/// number `k` the parameter `k - 1`.
pub proof fn law_value_is_set_once(rack: Rack, index: usize, k: usize, value: u32)
    requires
        rack.wf(),
        index < rack.effects.len(),
        k <= 64,
    ensures
        ({
            let after = rack.after(AudioCommand::SetParam(index, k, value));
            &&& after.notes == rack.notes
            &&& after.generators == rack.generators
            &&& after.effects.len() == rack.effects.len()
            &&& after.wetness.len() == rack.wetness.len()
            &&& forall|i: int|
                0 <= i < rack.wetness.len() ==> #[trigger] after.wetness[i] == if i == index && k
                    == 0 {
                    value
                } else {
                    rack.wetness[i]
                }
            &&& forall|i: int|
                0 <= i < rack.effects.len() ==> {
                    &&& (#[trigger] after.effects[i]).definition == rack.effects[i].definition
                    &&& after.effects[i].buffer == rack.effects[i].buffer
                    &&& after.effects[i].pointer == rack.effects[i].pointer
                    &&& after.effects[i].params.len() == 64
                }
            &&& forall|i: int, q: int|
                0 <= i < rack.effects.len() && 0 <= q < 64
                    ==> #[trigger] after.effects[i].params[q] == if i == index && q == k - 1 {
                    value
                } else {
                    rack.effects[i].params[q]
                }
        }),
{
    assert(rack.effects[index as int].params.len() == 64);
    let after = rack.after(AudioCommand::SetParam(index, k, value));
    assert forall|i: int| 0 <= i < rack.effects.len() implies {
        &&& (#[trigger] after.effects[i]).definition == rack.effects[i].definition
        &&& after.effects[i].buffer == rack.effects[i].buffer
        &&& after.effects[i].pointer == rack.effects[i].pointer
        &&& after.effects[i].params.len() == 64
    } by {
        assert(rack.effects[i].params.len() == 64);
    }
}

// Notes

/// When a generator has nothing more to say: a sine once its samples have passed
/// the sample rate, held or not, a saw the same once its key is up, the noise as
/// soon as its key is up. A held saw and held noise never finish, and what has
/// finished stays so.
pub proof fn law_when_generator_finishes(
    sample_rate: u32,
    chunk: int,
    chunk_index: u128,
    is_pressed: bool,
)
    ensures
        ({
            let passed = chunk_index * chunk > sample_rate;
            let ends = |definition: GeneratorDefinition|
                is_finished(definition, sample_rate, chunk, chunk_index, is_pressed);
            &&& ends(GeneratorDefinition::SineOsc) == passed
            &&& ends(GeneratorDefinition::DetunedSaw) == (passed && !is_pressed)
            &&& ends(GeneratorDefinition::WhiteNoise) == !is_pressed
        }),
        forall|definition: GeneratorDefinition, later: u128|
            chunk >= 0 && later >= chunk_index && is_finished(
                definition,
                sample_rate,
                chunk,
                chunk_index,
                is_pressed,
            ) ==> #[trigger] is_finished(definition, sample_rate, chunk, later, is_pressed),
{
    assert forall|definition: GeneratorDefinition, later: u128|
        chunk >= 0 && later >= chunk_index && is_finished(
            definition,
            sample_rate,
            chunk,
            chunk_index,
            is_pressed,
        ) implies #[trigger] is_finished(definition, sample_rate, chunk, later, is_pressed) by {
        assert(later * chunk >= chunk_index * chunk) by (nonlinear_arith)
            requires
                chunk >= 0,
                later >= chunk_index,
        ;
    }
}

/// A held note stays, at its pitch and with its generator, one chunk on.
pub proof fn law_held_note_stays(
    generators: Seq<GeneratorView>,
    sample_rate: u32,
    chunk: int,
    notes: Seq<(Keycode, NoteData)>,
    i: int,
)
    requires
        0 <= i < notes.len(),
        notes[i].1.is_pressed,
        notes[i].1.current_chunk < u128::MAX,
    ensures
        ({
            let after = notes_after_chunk(generators, sample_rate, chunk, notes);
            let next = (
                notes[i].0,
                NoteData {
                    instrument: notes[i].1.instrument,
                    is_pressed: true,
                    pitch: notes[i].1.pitch,
                    current_chunk: (notes[i].1.current_chunk + 1) as u128,
                },
            );
            after.contains(next)
        }),
{
    law_note_goes_on(generators, sample_rate, chunk, notes, i);
}

/// Each note sounds: with the parameters of its own generator, but at its own
/// pitch, for the chunk that it has come to, held or dying as it is.
pub proof fn law_note_sounds_at_its_pitch<A: Arithmetic>(
    ar: A,
    sample_rate: u32,
    chunk: int,
    generators: Seq<GeneratorView>,
    notes: Seq<(Keycode, NoteData)>,
    chunks: Seq<Seq<u32>>,
    i: int,
)
    requires
        voiced(ar, sample_rate, chunk, generators, notes, chunks),
        0 <= i < notes.len(),
        generators[notes[i].1.instrument as int].params.len() == 64,
    ensures
        chunks.len() == notes.len(),
        chunks[i].len() == chunk,
        exists|params: Seq<u32>|
            {
                &&& params.len() == 64
                &&& params[0] == notes[i].1.pitch
                &&& forall|k: int|
                    1 <= k < 64 ==> #[trigger] params[k]
                        == generators[notes[i].1.instrument as int].params[k]
                &&& #[trigger] sounds_like(
                    ar,
                    generators[notes[i].1.instrument as int].definition,
                    sample_rate,
                    params,
                    notes[i].1.current_chunk,
                    notes[i].1.is_pressed,
                    chunks[i],
                )
            },
{
    let note = notes[i].1;
    let generator = generators[note.instrument as int];
    let params = generator.params.update(0, note.pitch);
    assert(chunks[i].len() == chunk);
    assert(sounds_like(
        ar,
        generator.definition,
        sample_rate,
        params,
        note.current_chunk,
        note.is_pressed,
        chunks[i],
    ));
}

// Menus

/// One if the key was struck.
pub open spec fn hit(struck: Seq<Keycode>, key: Keycode) -> int {
    if struck.contains(key) {
        1
    } else {
        0
    }
}

/// A selection goes back and on by one, round.
proof fn lemma_moved_round(i: int, n: int, struck: Seq<Keycode>, back: Keycode, on: Keycode)
    requires
        0 <= i < n,
    ensures
        moved(i, n, struck, back, on) == (i - hit(struck, back) + hit(struck, on)) % n,
        0 <= moved(i, n, struck, back, on) < n,
{
    let first = if struck.contains(back) {
        if i > 0 {
            i - 1
        } else {
            n - 1
        }
    } else {
        i
    };
    if i == 0 && struck.contains(back) {
        vstd::arithmetic::div_mod::lemma_mod_add_multiples_vanish(-1, n);
        vstd::arithmetic::div_mod::lemma_small_mod((n - 1) as nat, n as nat);
    }
    vstd::arithmetic::div_mod::lemma_small_mod(i as nat, n as nat);
    if first < n - 1 {
        vstd::arithmetic::div_mod::lemma_small_mod((first + 1) as nat, n as nat);
    } else {
        vstd::arithmetic::div_mod::lemma_mod_self_0(n);
    }
    vstd::arithmetic::div_mod::lemma_small_mod(first as nat, n as nat);
    vstd::arithmetic::div_mod::lemma_small_mod(0, n as nat);
}

/// In perform mode, the arrows move the octave, `K` and `J` select an effect, and
/// `H` and `L` one of its values, of which the wetness is the first; each goes
/// back or on by one, round. Nothing else changes, and the player is told
/// nothing.
pub proof fn law_perform_keys(
    gui: GuiView,
    struck: Seq<Keycode>,
    bank: Seq<EffectDefinition>,
    generators: int,
)
    requires
        gui.wf(bank.len() as int, generators),
        gui.mode == Modes::PERFORM,
    ensures
        ({
            let (after, told) = gui.struck(struck, bank, generators);
            let n = gui.effect_stack.len() as int;
            &&& told.len() == 0
            &&& after.current_octave == gui.current_octave + hit(struck, Keycode::Right) - hit(
                struck,
                Keycode::Left,
            )
            &&& n == 0 ==> after.current_effect == gui.current_effect && after.current_param
                == gui.current_param
            &&& n > 0 ==> {
                let e = (gui.current_effect - hit(struck, Keycode::K) + hit(struck, Keycode::J))
                    % n;
                let count = gui.effect_params[e].len() + 1;
                let p = if gui.current_param < count {
                    gui.current_param
                } else {
                    count - 1
                };
                &&& after.current_effect == e
                &&& after.current_param == (p - hit(struck, Keycode::H) + hit(struck, Keycode::L))
                    % (count as int)
            }
            &&& after == GuiView {
                current_octave: after.current_octave,
                current_effect: after.current_effect,
                current_param: after.current_param,
                ..gui
            }
        }),
{
    let n = gui.effect_stack.len() as int;
    if n > 0 {
        lemma_moved_round(gui.current_effect, n, struck, Keycode::K, Keycode::J);
        let e = moved(gui.current_effect, n, struck, Keycode::K, Keycode::J);
        let count = gui.effect_params[e].len() + 1;
        let p = if gui.current_param >= count {
            count - 1
        } else {
            gui.current_param
        };
        lemma_moved_round(p, count as int, struck, Keycode::H, Keycode::L);
    }
}

/// In edit mode, `H` and `L` select one of three columns. In the column of the
/// stack, `K` and `J` select an effect and the delete key removes it; in that of
/// the bank, they select an effect to add and the enter key adds it; in that of
/// the instruments, they select the generator. The player is told of what is
/// removed or added, and of nothing else.
pub proof fn law_edit_keys(
    gui: GuiView,
    struck: Seq<Keycode>,
    bank: Seq<EffectDefinition>,
    generators: int,
)
    requires
        gui.wf(bank.len() as int, generators),
        gui.mode == Modes::EDIT,
        gui.effect_stack.len() <= usize::MAX,
    ensures
        ({
            let (after, told) = gui.struck(struck, bank, generators);
            let n = gui.effect_stack.len() as int;
            let step = hit(struck, Keycode::J) - hit(struck, Keycode::K);
            let column = (gui.edit_column - hit(struck, Keycode::H) + hit(struck, Keycode::L)) % 3;
            let e = (gui.current_effect + step) % n;
            let a = (gui.current_to_add + step) % (bank.len() as int);
            let i = (gui.current_instrument + step) % generators;
            &&& after.mode == Modes::EDIT
            &&& after.edit_column == column
            &&& after.throttle_ms == gui.throttle_ms
            &&& after.current_octave == gui.current_octave
            &&& after.current_param == gui.current_param
            &&& after.current_to_add == if column == 1 {
                a
            } else {
                gui.current_to_add
            }
            &&& after.current_instrument == if column == 2 {
                i
            } else {
                gui.current_instrument
            }
            &&& if column == 0 && n > 0 && struck.contains(Keycode::Delete) {
                &&& told == seq![AudioCommand::DelEffect(e as usize)]
                &&& after.effect_stack == gui.effect_stack.remove(e)
                &&& after.effect_params == gui.effect_params.remove(e)
                &&& after.effect_wetness == gui.effect_wetness.remove(e)
                &&& after.current_effect == if e < n - 1 {
                    e
                } else if n > 1 {
                    n - 2
                } else {
                    0
                }
            } else if column == 1 && struck.contains(Keycode::Enter) {
                &&& told == seq![AudioCommand::NewEffect(bank[a])]
                &&& after.effect_stack == gui.effect_stack.push(bank[a])
                &&& after.effect_wetness == gui.effect_wetness.push(ONE)
                &&& after.effect_params == gui.effect_params.push(starting_params(bank[a]))
                &&& after.current_effect == gui.current_effect
            } else {
                &&& told.len() == 0
                &&& after.effect_stack == gui.effect_stack
                &&& after.effect_params == gui.effect_params
                &&& after.effect_wetness == gui.effect_wetness
                &&& after.current_effect == if column == 0 && n > 0 {
                    e
                } else {
                    gui.current_effect
                }
            }
        }),
{
    lemma_moved_round(gui.edit_column, 3, struck, Keycode::H, Keycode::L);
    lemma_moved_round(gui.current_to_add, bank.len() as int, struck, Keycode::K, Keycode::J);
    lemma_moved_round(gui.current_instrument, generators, struck, Keycode::K, Keycode::J);
    if gui.effect_stack.len() > 0 {
        let n = gui.effect_stack.len() as int;
        lemma_moved_round(gui.current_effect, n, struck, Keycode::K, Keycode::J);
    }
}

/// The values that an added effect shows: a delay without volume and of a quarter
/// of a second, a clip with gains that cancel out, a panning to the middle.
pub proof fn law_starting_values(definition: EffectDefinition)
    ensures
        starting_params(definition) == match definition {
            EffectDefinition::Delay => seq![ZERO, QUARTER],
            EffectDefinition::HardClip => seq![ONE_SIXTY_FOURTH, ONE],
            EffectDefinition::Pan => seq![HALF],
        },
{
    let expected = match definition {
        EffectDefinition::Delay => seq![ZERO, QUARTER],
        EffectDefinition::HardClip => seq![ONE_SIXTY_FOURTH, ONE],
        EffectDefinition::Pan => seq![HALF],
    };
    assert(starting_params(definition) =~= expected);
}

/// The slider changes the selected value of the selected effect, number 0 being
/// the wetness, and nothing else.
pub proof fn law_slider_changes_one_value(gui: GuiView, value: u32, effects: int, generators: int)
    requires
        gui.wf(effects, generators),
        gui.effect_stack.len() > 0,
    ensures
        ({
            let after = gui.with_value(value);
            let (e, p) = (gui.current_effect, gui.current_param);
            &&& after == GuiView {
                effect_wetness: after.effect_wetness,
                effect_params: after.effect_params,
                ..gui
            }
            &&& after.effect_wetness.len() == gui.effect_wetness.len()
            &&& after.effect_params.len() == gui.effect_params.len()
            &&& forall|i: int|
                0 <= i < gui.effect_wetness.len() ==> #[trigger] after.effect_wetness[i] == if i
                    == e && p == 0 {
                    value
                } else {
                    gui.effect_wetness[i]
                }
            &&& forall|i: int|
                0 <= i < gui.effect_params.len() ==> (#[trigger] after.effect_params[i]).len()
                    == gui.effect_params[i].len()
            &&& forall|i: int, q: int|
                0 <= i < gui.effect_params.len() && 0 <= q < gui.effect_params[i].len()
                    ==> #[trigger] after.effect_params[i][q] == if i == e && q == p - 1 {
                    value
                } else {
                    gui.effect_params[i][q]
                }
        }),
{
}

/// The tabulator exchanges the two modes and changes nothing else; without it,
/// nothing changes.
pub proof fn law_tab_exchanges_modes(gui: GuiView, struck: Seq<Keycode>)
    ensures
        ({
            let after = gui.mode_struck(struck);
            &&& after == GuiView { mode: after.mode, ..gui }
            &&& (after.mode != gui.mode) == struck.contains(Keycode::Tab)
        }),
{
}

/// Removing an effect that is not there changes nothing but a selection that is
/// not there either; removing one that is takes it out with its values, and the
/// selection stays where it is as long as there is an effect.
pub proof fn law_removed_effect_is_gone(gui: GuiView, index: int)
    requires
        0 <= index,
        0 <= gui.current_effect,
        gui.effect_params.len() == gui.effect_stack.len(),
        gui.effect_wetness.len() == gui.effect_stack.len(),
    ensures
        ({
            let after = gui.without_effect(index);
            let there = index < gui.effect_stack.len();
            let left = after.effect_stack.len() as int;
            &&& left == gui.effect_stack.len() - if there {
                1int
            } else {
                0
            }
            &&& after.effect_params.len() == left
            &&& after.effect_wetness.len() == left
            &&& after.current_effect == if gui.current_effect < left {
                gui.current_effect
            } else if left > 0 {
                left - 1
            } else {
                0
            }
            &&& forall|i: int|
                0 <= i < left ==> {
                    let from = if i < index {
                        i
                    } else {
                        i + 1
                    };
                    &&& (#[trigger] after.effect_stack[i]) == gui.effect_stack[from]
                    &&& after.effect_params[i] == gui.effect_params[from]
                    &&& after.effect_wetness[i] == gui.effect_wetness[from]
                }
            &&& after == GuiView {
                current_effect: after.current_effect,
                effect_stack: after.effect_stack,
                effect_params: after.effect_params,
                effect_wetness: after.effect_wetness,
                ..gui
            }
        }),
{
}

// Rendering

/// Samples can be rendered exactly if chunks are not empty, no chunk begins at
/// the fourth place of the region, what is to be streamed does not pass the
/// region's end, and the notes can be counted.
pub proof fn law_when_samples_fit(player: PlayerView, sample_rate: u32, chunk: int, len: int)
    requires
        0 <= player.pointer < 2048,
        len >= 0,
    ensures
        can_process(player, sample_rate, chunk, len) == (chunk > 0 && notes_within(
            player.rack,
            sample_rate,
            chunk,
            len,
        ) && (forall|k: int|
            0 <= k && #[trigger] (k * chunk) < len ==> (player.pointer + k * chunk) % 2048 != 3)
            && (player.pointer + len) % 2048 + len <= 2048),
{
    let a = forall|k: int|
        0 <= k && #[trigger] (k * chunk) < len ==> declick_start(
            (player.pointer + k * chunk) % 2048,
        ) + 1 < 2048;
    let b = forall|k: int|
        0 <= k && #[trigger] (k * chunk) < len ==> (player.pointer + k * chunk) % 2048 != 3;
    if a {
        assert forall|k: int| 0 <= k && #[trigger] (k * chunk) < len implies (player.pointer + k
            * chunk) % 2048 != 3 by {
            assert(declick_start((player.pointer + k * chunk) % 2048) + 1 < 2048);
        }
    }
    if b {
        assert forall|k: int| 0 <= k && #[trigger] (k * chunk) < len implies declick_start(
            (player.pointer + k * chunk) % 2048,
        ) + 1 < 2048 by {
            assert((player.pointer + k * chunk) % 2048 != 3);
        }
    }
}

/// It makes no difference whether samples are rendered in one call or in two, if
/// the first is for whole chunks.
pub proof fn law_calls_join<A: Arithmetic>(
    ar: A,
    sample_rate: u32,
    chunk: int,
    chunks: int,
    more: int,
    first: PlayerView,
    second: PlayerView,
    third: PlayerView,
)
    requires
        chunk > 0,
        chunks >= 0,
        more >= 0,
        all_played(ar, sample_rate, chunk, chunks * chunk, first, second),
        all_played(ar, sample_rate, chunk, more, second, third),
    ensures
        all_played(ar, sample_rate, chunk, chunks * chunk + more, first, third),
{
    let len = chunks * chunk;
    let a = choose|states: Seq<PlayerView>|
        {
            &&& #[trigger] chunk_states(ar, sample_rate, chunk, len, states)
            &&& states[0] == first
            &&& states.last() == second
            &&& (states.len() - 2) * chunk < len <= (states.len() - 1) * chunk
        };
    let b = choose|states: Seq<PlayerView>|
        {
            &&& #[trigger] chunk_states(ar, sample_rate, chunk, more, states)
            &&& states[0] == second
            &&& states.last() == third
            &&& (states.len() - 2) * chunk < more <= (states.len() - 1) * chunk
        };
    assert(a.len() - 1 == chunks) by (nonlinear_arith)
        requires
            (a.len() - 2) * chunk < chunks * chunk <= (a.len() - 1) * chunk,
            chunk > 0,
    ;
    let all = a + b.skip(1);
    assert forall|k: int| 0 < k < all.len() implies chunk_played(
        ar,
        sample_rate,
        chunk,
        chunk_len(len + more, chunk, k - 1),
        all[k - 1],
        #[trigger] all[k],
    ) by {
        if k <= chunks {
            assert(chunk_played(
                ar,
                sample_rate,
                chunk,
                chunk_len(len, chunk, k - 1),
                a[k - 1],
                a[k],
            ));
            assert(len - (k - 1) * chunk >= chunk) by (nonlinear_arith)
                requires
                    len == chunks * chunk,
                    k <= chunks,
                    chunk > 0,
            ;
        } else {
            let j = k - chunks;
            assert(all[k] == b[j]);
            assert(all[k - 1] == b[j - 1]);
            assert(chunk_played(
                ar,
                sample_rate,
                chunk,
                chunk_len(more, chunk, j - 1),
                b[j - 1],
                b[j],
            ));
            assert(len + more - (k - 1) * chunk == more - (j - 1) * chunk) by (nonlinear_arith)
                requires
                    len == chunks * chunk,
                    j == k - chunks,
            ;
        }
    }
    assert(chunk_states(ar, sample_rate, chunk, len + more, all));
    assert(all.last() == third);
    assert((all.len() - 2) * chunk < len + more <= (all.len() - 1) * chunk) by (nonlinear_arith)
        requires
            all.len() == chunks + b.len(),
            len == chunks * chunk,
            (b.len() - 2) * chunk < more <= (b.len() - 1) * chunk,
    ;
}

} // verus!
