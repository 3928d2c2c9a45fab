//! The audio side: obeys commands and renders samples.

use vstd::prelude::*;

use crate::arithmetic::{ONE, ZERO};
use crate::command::{
    found_empty, offers, received, room, sent, traffic_in, traffic_out, AudioCommand,
    CommandReceiver, CommandRing, CommandSender,
};
use crate::effect::{fresh_effect, Effect, EffectView, BUFFER_SIZE, MAXIMUM_PARAM_INDEX};
use crate::generator::{generator_defaults, Generator, GeneratorView};
use crate::keys::Keycode;
use crate::mixing::{sound_views, AudioSample, Sound};
use crate::region::BUFFER_REGION_SIZE;

verus! {

/// A note that sounds, or dies away after its key went up.
#[derive(Clone, Copy)]
pub struct NoteData {
    pub instrument: usize,
    pub is_pressed: bool,
    pub pitch: u32,
    pub current_chunk: u128,
}

/// The audio side, for chunks of `CHUNK` samples.
pub struct Player<const CHUNK: usize> {
    /// The notes, each key at most once.
    pub playing_keys: Vec<(Keycode, NoteData)>,
    pub playing_samples: Vec<AudioSample<CHUNK>>,
    pub consumer: CommandReceiver,
    /// Rendered samples on their way to the stream.
    pub buffer_region: [u32; BUFFER_REGION_SIZE],
    /// Where the next sample is written.
    pub buffer_region_pointer: usize,
    pub generators: Vec<Generator>,
    pub effect_stack: Vec<Effect>,
    pub effect_wetness: Vec<u32>,
}

/// What commands act on.
pub struct Rack {
    pub notes: Seq<(Keycode, NoteData)>,
    pub generators: Seq<GeneratorView>,
    pub effects: Seq<EffectView>,
    pub wetness: Seq<u32>,
}

/// A player as the contracts see it.
pub struct PlayerView {
    pub rack: Rack,
    pub sounds: Seq<Sound>,
    pub region: Seq<u32>,
    pub pointer: int,
}

/// What became of a command.
#[derive(Clone, Copy, PartialEq, Eq, Structural, Debug)]
pub enum Verdict {
    /// It was obeyed.
    Obeyed,
    /// It named a generator, an effect or a parameter that does not exist.
    Refused,
    /// It told an effect to go that does not exist.
    MissingEffect,
}

/// Whether a key is among the notes.
pub open spec fn has_note(notes: Seq<(Keycode, NoteData)>, key: Keycode) -> bool {
    exists|i: int| 0 <= i < notes.len() && (#[trigger] notes[i]).0 == key
}

/// The notes after a key went down. A key that still sounds keeps its pitch.
pub open spec fn notes_pressed(
    notes: Seq<(Keycode, NoteData)>,
    instrument: usize,
    key: Keycode,
    pitch: u32,
) -> Seq<(Keycode, NoteData)> {
    if has_note(notes, key) {
        notes.map_values(
            |n: (Keycode, NoteData)|
                if n.0 == key {
                    (
                        n.0,
                        NoteData {
                            instrument,
                            is_pressed: true,
                            pitch: n.1.pitch,
                            current_chunk: 0,
                        },
                    )
                } else {
                    n
                },
        )
    } else {
        notes.push((key, NoteData { instrument, is_pressed: true, pitch, current_chunk: 0 }))
    }
}

/// The notes after a key went up.
pub open spec fn notes_released(notes: Seq<(Keycode, NoteData)>, key: Keycode) -> Seq<
    (Keycode, NoteData),
> {
    notes.map_values(
        |n: (Keycode, NoteData)|
            if n.0 == key {
                (n.0, NoteData { is_pressed: false, current_chunk: 0, ..n.1 })
            } else {
                n
            },
    )
}

/// Each key occurs at most once.
pub open spec fn keys_differ(notes: Seq<(Keycode, NoteData)>) -> bool {
    forall|i: int, j: int|
        0 <= i < j < notes.len() ==> (#[trigger] notes[i]).0 != (#[trigger] notes[j]).0
}

impl Rack {
    /// Each key has one note, each note a generator, each effect a wetness and
    /// a buffer of the full size that it writes inside.
    pub open spec fn wf(self) -> bool {
        &&& keys_differ(self.notes)
        &&& forall|i: int|
            0 <= i < self.notes.len() ==> (#[trigger] self.notes[i]).1.instrument
                < self.generators.len()
        &&& self.effects.len() == self.wetness.len()
        &&& forall|i: int|
            0 <= i < self.effects.len() ==> 0 <= (#[trigger] self.effects[i]).pointer < BUFFER_SIZE
        &&& forall|i: int|
            0 <= i < self.effects.len() ==> (#[trigger] self.effects[i]).buffer.len() == BUFFER_SIZE
                && self.effects[i].params.len() == MAXIMUM_PARAM_INDEX
        &&& forall|i: int|
            0 <= i < self.generators.len() ==> (#[trigger] self.generators[i]).params.len()
                == MAXIMUM_PARAM_INDEX
    }

    /// What becomes of a command.
    pub open spec fn verdict(self, command: AudioCommand) -> Verdict {
        match command {
            AudioCommand::Press(generator, _, _) => if generator >= self.generators.len() {
                Verdict::Refused
            } else {
                Verdict::Obeyed
            },
            AudioCommand::SetParam(index, key, _) => if key > MAXIMUM_PARAM_INDEX || index
                >= self.effects.len() {
                Verdict::Refused
            } else {
                Verdict::Obeyed
            },
            AudioCommand::DelEffect(index) => if index >= self.effects.len() {
                Verdict::MissingEffect
            } else {
                Verdict::Obeyed
            },
            _ => Verdict::Obeyed,
        }
    }

    /// The rack after a command. One that is not obeyed changes nothing.
    pub open spec fn after(self, command: AudioCommand) -> Rack {
        if self.verdict(command) != Verdict::Obeyed {
            self
        } else {
            match command {
                AudioCommand::NewGenerator(definition) => Rack {
                    generators: self.generators.push(
                        GeneratorView { definition, params: generator_defaults(definition) },
                    ),
                    ..self
                },
                AudioCommand::Press(generator, key, pitch) => Rack {
                    notes: notes_pressed(self.notes, generator, key, pitch),
                    ..self
                },
                AudioCommand::Release(key) => Rack {
                    notes: notes_released(self.notes, key),
                    ..self
                },
                AudioCommand::NewEffect(definition) => Rack {
                    effects: self.effects.push(fresh_effect(definition)),
                    wetness: self.wetness.push(ONE),
                    ..self
                },
                AudioCommand::DelEffect(index) => Rack {
                    effects: self.effects.remove(index as int),
                    wetness: self.wetness.remove(index as int),
                    ..self
                },
                AudioCommand::SetParam(index, key, value) => if key == 0 {
                    Rack { wetness: self.wetness.update(index as int, value), ..self }
                } else {
                    let effect = self.effects[index as int];
                    Rack {
                        effects: self.effects.update(
                            index as int,
                            EffectView { params: effect.params.update(key - 1, value), ..effect },
                        ),
                        ..self
                    }
                },
            }
        }
    }

    /// The rack after several commands.
    pub open spec fn after_all(self, commands: Seq<AudioCommand>) -> Rack
        decreases commands.len(),
    {
        if commands.len() == 0 {
            self
        } else {
            self.after_all(commands.drop_last()).after(commands.last())
        }
    }

    /// Whether each of several commands is obeyed.
    pub open spec fn obeys_all(self, commands: Seq<AudioCommand>) -> bool
        decreases commands.len(),
    {
        commands.len() == 0 || {
            &&& self.obeys_all(commands.drop_last())
            &&& self.after_all(commands.drop_last()).verdict(commands.last()) == Verdict::Obeyed
        }
    }
}

pub open spec fn generator_views(generators: Seq<Generator>) -> Seq<GeneratorView> {
    Seq::new(generators.len(), |i: int| generators[i]@)
}

pub open spec fn effect_views(effects: Seq<Effect>) -> Seq<EffectView> {
    Seq::new(effects.len(), |i: int| effects[i]@)
}

impl<const CHUNK: usize> View for Player<CHUNK> {
    type V = PlayerView;

    open spec fn view(&self) -> PlayerView {
        PlayerView {
            rack: Rack {
                notes: self.playing_keys@,
                generators: generator_views(self.generators@),
                effects: effect_views(self.effect_stack@),
                wetness: self.effect_wetness@,
            },
            sounds: sound_views(self.playing_samples@),
            region: self.buffer_region@,
            pointer: self.buffer_region_pointer as int,
        }
    }
}

/// Where the note of a key is.
fn find_note(notes: &Vec<(Keycode, NoteData)>, key: Keycode) -> (r: Option<usize>)
    ensures
        match r {
            Some(i) => i < notes.len() && notes@[i as int].0 == key,
            None => !has_note(notes@, key),
        },
{
    for i in 0..notes.len()
        invariant
            forall|j: int| 0 <= j < i ==> (#[trigger] notes@[j]).0 != key,
    {
        if notes[i].0 == key {
            return Some(i);
        }
    }
    None
}

impl<const CHUNK: usize> Player<CHUNK> {
    /// The rack is in order and the next sample is written inside the region.
    pub open spec fn wf(self) -> bool {
        &&& self@.rack.wf()
        &&& self.buffer_region_pointer < BUFFER_REGION_SIZE
    }

    /// Obeys a command.
    pub fn obey(&mut self, command: AudioCommand) -> (r: Verdict)
        requires
            old(self).wf(),
        ensures
            final(self).wf(),
            final(self)@ == (PlayerView { rack: old(self)@.rack.after(command), ..old(self)@ }),
            final(self).consumer == old(self).consumer,
            r == old(self)@.rack.verdict(command),
    {
        let ghost before = self@;
        match command {
            AudioCommand::NewGenerator(definition) => {
                self.generators.push(Generator { definition, data: definition.init() });
                assert(self@.rack.generators == before.rack.after(command).generators);
            },
            AudioCommand::Press(generator, key, pitch) => {
                if generator >= self.generators.len() {
                    return Verdict::Refused;
                }
                match find_note(&self.playing_keys, key) {
                    Some(i) => {
                        let note: NoteData = self.playing_keys[i].1;
                        self.playing_keys[i] = (
                            key,
                            NoteData {
                                instrument: generator,
                                is_pressed: true,
                                pitch: note.pitch,
                                current_chunk: 0,
                            },
                        );
                    },
                    None => {
                        self.playing_keys.push(
                            (
                                key,
                                NoteData {
                                    instrument: generator,
                                    is_pressed: true,
                                    pitch,
                                    current_chunk: 0,
                                },
                            ),
                        );
                    },
                }
                assert(self@.rack.notes == before.rack.after(command).notes);
            },
            AudioCommand::Release(key) => {
                match find_note(&self.playing_keys, key) {
                    Some(i) => {
                        let note: NoteData = self.playing_keys[i].1;
                        self.playing_keys[i] = (
                            key,
                            NoteData {
                                instrument: note.instrument,
                                is_pressed: false,
                                pitch: note.pitch,
                                current_chunk: 0,
                            },
                        );
                    },
                    None => {},
                }
                assert(self@.rack.notes == before.rack.after(command).notes);
            },
            AudioCommand::NewEffect(definition) => {
                self.effect_stack.push(Effect { definition, data: definition.init() });
                self.effect_wetness.push(ONE);
                assert(self@.rack.effects == before.rack.after(command).effects);
            },
            AudioCommand::DelEffect(index) => {
                if index >= self.effect_stack.len() {
                    return Verdict::MissingEffect;
                }
                self.effect_stack.remove(index);
                self.effect_wetness.remove(index);
                assert(self@.rack.effects == before.rack.after(command).effects);
            },
            AudioCommand::SetParam(index, key, value) => {
                if key >= MAXIMUM_PARAM_INDEX + 1 {
                    return Verdict::Refused;
                }
                if index >= self.effect_stack.len() {
                    return Verdict::Refused;
                }
                if key == 0 {
                    self.effect_wetness[index] = value;
                } else {
                    self.effect_stack[index].data.params[key - 1] = value;
                }
                assert(self@.rack.effects == before.rack.after(command).effects);
            },
        }
        Verdict::Obeyed
    }

    /// Obeys the commands that have come until the ring is found empty, or up to
    /// the first that cannot be obeyed. That one is used up too; those behind it
    /// wait.
    pub fn drain(&mut self) -> (r: Verdict)
        requires
            old(self).wf(),
        ensures
            final(self).wf(),
            drained(old(self)@.rack, old(self).consumer, r, final(self)@.rack, final(self).consumer),
            final(self)@ == (PlayerView { rack: final(self)@.rack, ..old(self)@ }),
    {
        let ghost before = *self;
        let ghost mut commands: Seq<AudioCommand> = Seq::empty();
        assert(received(self.consumer) == received(before.consumer) + commands);
        loop
            invariant
                before == *old(self),
                self.wf(),
                self@ == (PlayerView { rack: before@.rack.after_all(commands), ..before@ }),
                received(self.consumer) == received(before.consumer) + commands,
                before@.rack.obeys_all(commands),
                traffic_out(self.consumer) == traffic_out(before.consumer),
                found_empty(self.consumer) == found_empty(before.consumer),
                commands.len() > 0 ==> received(self.consumer).is_prefix_of(
                    traffic_out(self.consumer),
                ),
            decreases traffic_out(before.consumer).len() + 1 - commands.len(),
        {
            match self.consumer.try_pop() {
                None => {
                    assert(drained_with(
                        before@.rack,
                        before.consumer,
                        commands,
                        Verdict::Obeyed,
                        self@.rack,
                        self.consumer,
                    ));
                    return Verdict::Obeyed;
                },
                Some(command) => {
                    let ghost earlier = commands;
                    proof {
                        commands = commands.push(command);
                        assert(commands.drop_last() == earlier);
                        assert(received(self.consumer) == received(before.consumer) + commands);
                    }
                    let verdict: Verdict = self.obey(command);
                    if verdict != Verdict::Obeyed {
                        assert(drained_with(
                            before@.rack,
                            before.consumer,
                            commands,
                            verdict,
                            self@.rack,
                            self.consumer,
                        ));
                        return verdict;
                    }
                },
            }
        }
    }
}

/// The commands `commands` came out of the ring and were obeyed as far as
/// `verdict` says: all of them, and then the ring was found empty, or all but
/// the last, with which the reading stopped.
pub open spec fn drained_with(
    before: Rack,
    from: CommandReceiver,
    commands: Seq<AudioCommand>,
    verdict: Verdict,
    after: Rack,
    to: CommandReceiver,
) -> bool {
    &&& received(to) == received(from) + commands
    &&& traffic_out(to) == traffic_out(from)
    &&& commands.len() > 0 ==> received(to).is_prefix_of(traffic_out(to))
    &&& after == before.after_all(commands)
    &&& if verdict == Verdict::Obeyed {
        &&& before.obeys_all(commands)
        &&& found_empty(to) == found_empty(from) + 1
    } else {
        &&& commands.len() > 0
        &&& found_empty(to) == found_empty(from)
        &&& before.obeys_all(commands.drop_last())
        &&& before.after_all(commands.drop_last()).verdict(commands.last()) == verdict
    }
}

/// Some commands came out of the ring and were obeyed as far as `verdict` says.
pub open spec fn drained(
    before: Rack,
    from: CommandReceiver,
    verdict: Verdict,
    after: Rack,
    to: CommandReceiver,
) -> bool {
    exists|commands: Seq<AudioCommand>|
        #[trigger] drained_with(before, from, commands, verdict, after, to)
}

/// The number of commands that may be on their way.
pub const RING_SIZE: usize = 64;

/// A player that has heard and played nothing.
pub open spec fn silent_player() -> PlayerView {
    PlayerView {
        rack: Rack {
            notes: Seq::empty(),
            generators: Seq::empty(),
            effects: Seq::empty(),
            wetness: Seq::empty(),
        },
        sounds: Seq::empty(),
        region: Seq::new(BUFFER_REGION_SIZE as nat, |i: int| ZERO),
        pointer: 0,
    }
}

/// A player, and the end of the ring by which it is told what to do.
pub struct Instrument<const CHUNK: usize> {
    pub producer: CommandSender,
    pub player: Player<CHUNK>,
}

impl<const CHUNK: usize> Instrument<CHUNK> {
    pub fn new() -> (r: Self)
        ensures
            r.player.wf(),
            r.player@ == silent_player(),
            offers(r.producer) == Seq::<AudioCommand>::empty(),
            sent(r.producer) == Seq::<AudioCommand>::empty(),
            room(r.producer) == RING_SIZE,
            received(r.player.consumer) == Seq::<AudioCommand>::empty(),
            found_empty(r.player.consumer) == 0,
            traffic_in(r.producer) == traffic_out(r.player.consumer),
    {
        let ring: CommandRing = CommandRing::new(RING_SIZE);
        let (producer, consumer) = ring.split();
        let r = Instrument {
            producer,
            player: Player {
                playing_keys: Vec::new(),
                playing_samples: Vec::new(),
                consumer,
                buffer_region: [ZERO; BUFFER_REGION_SIZE],
                buffer_region_pointer: 0,
                generators: Vec::new(),
                effect_stack: Vec::new(),
                effect_wetness: Vec::new(),
            },
        };
        proof {
            let rack = r.player@.rack;
            assert(rack.generators == silent_player().rack.generators);
            assert(rack.effects == silent_player().rack.effects);
            assert(r.player@.sounds == silent_player().sounds);
            assert(r.player@.region == silent_player().region);
        }
        r
    }
}

} // verus!
