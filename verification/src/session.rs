//! The control side over whole frames, and over many of them.

use vstd::prelude::*;

use crate::arithmetic::{evaluates, Arithmetic};
use crate::command::{lemma_offered_both, lemma_offered_none, offered, AudioCommand};
use crate::desk::{
    at_octave, begun, edo12_from_c, ended, key_commands, key_rows, note_commands, octaves_up,
    is_due, row_at_pitch, rows_at_pitch, seat_note, setup_commands, slid, Desk, FrameEnd,
    SLIDER_HEIGHT,
};
use crate::effect::{EffectDefinition, MAXIMUM_PARAM_INDEX};
use crate::generator::GeneratorDefinition;
use crate::gui::{lemma_moved_in_range, lemma_struck_wf, new_gui, GuiView, Modes};
use crate::keys::{keys_without, Keycode};
use crate::laws::law_piano_keys_differ;
use crate::player::{Rack, Verdict};

verus! {

/// What a frame finds.
pub struct Frame {
    /// The keys that are down.
    pub keys: Seq<Keycode>,
    /// The pitches of the keys of the piano, as far as they went down.
    pub pitches: Seq<u32>,
    /// The milliseconds since the slider last set a value, if the clock can tell.
    pub elapsed: Option<u128>,
    /// How far down the mouse stands.
    pub y: int,
    /// What the mouse's place on the slider stands for.
    pub value: u32,
}

/// What the control side remembers from frame to frame.
pub struct Session {
    pub gui: GuiView,
    /// The keys that were down in the last frame.
    pub pressed: Seq<Keycode>,
}

/// The bank of effects, the piano and the number of generators.
pub struct Setup {
    pub piano: Seq<(Keycode, u32)>,
    pub bank: Seq<EffectDefinition>,
    pub generators: int,
}

impl Session {
    /// The session of a desk.
    pub open spec fn of(desk: Desk) -> Session {
        Session { gui: desk.gui@, pressed: desk.pressed@ }
    }

    /// The session at the start.
    pub open spec fn start() -> Session {
        Session { gui: new_gui(), pressed: Seq::empty() }
    }

    /// The keys that go down in a frame.
    pub open spec fn struck(self, frame: Frame) -> Seq<Keycode> {
        keys_without(frame.keys, self.pressed)
    }

    /// The keys that go up in a frame.
    pub open spec fn released(self, frame: Frame) -> Seq<Keycode> {
        keys_without(self.pressed, frame.keys)
    }

    /// What is selected when the mouse has its turn in a frame.
    pub open spec fn selected(self, frame: Frame, setup: Setup) -> GuiView {
        self.gui.struck(self.struck(frame), setup.bank, setup.generators).0
    }

    /// Whether the slider sets a value in a frame.
    pub open spec fn slides(self, frame: Frame) -> bool {
        &&& self.gui.mode == Modes::PERFORM
        &&& self.gui.effect_stack.len() > 0
        &&& (frame.elapsed matches Some(ms) && ms > self.gui.throttle_ms)
        &&& frame.y < SLIDER_HEIGHT
    }

    /// What the player is told of the slider in a frame.
    pub open spec fn slide_commands(self, frame: Frame, setup: Setup) -> Seq<AudioCommand> {
        let there = self.selected(frame, setup);
        if self.slides(frame) {
            seq![
                AudioCommand::SetParam(
                    there.current_effect as usize,
                    there.current_param as usize,
                    frame.value,
                ),
            ]
        } else {
            Seq::empty()
        }
    }

    /// What the player is told of the piano in a frame.
    pub open spec fn piano_commands(self, frame: Frame, setup: Setup) -> Seq<AudioCommand> {
        note_commands(
            setup.piano,
            frame.pitches,
            self.gui.current_instrument as usize,
            self.struck(frame),
            self.released(frame),
        )
    }

    /// What the player is told of the effects in a frame.
    pub open spec fn edit_commands(self, frame: Frame, setup: Setup) -> Seq<AudioCommand> {
        self.gui.struck(self.struck(frame), setup.bank, setup.generators).1
    }

    /// What the player is told in a frame.
    pub open spec fn told(self, frame: Frame, setup: Setup) -> Seq<AudioCommand> {
        self.piano_commands(frame, setup) + self.edit_commands(frame, setup)
            + self.slide_commands(frame, setup)
    }

    /// The session after a frame.
    pub open spec fn after(self, frame: Frame, setup: Setup) -> Session {
        let there = self.selected(frame, setup);
        let slid = if self.slides(frame) {
            there.with_value(frame.value)
        } else {
            there
        };
        Session {
            gui: slid.mode_struck(self.struck(frame)),
            pressed: if frame.keys.contains(Keycode::Escape) {
                self.pressed
            } else {
                frame.keys
            },
        }
    }

    /// The session after several frames.
    pub open spec fn after_all(self, frames: Seq<Frame>, setup: Setup) -> Session
        decreases frames.len(),
    {
        if frames.len() == 0 {
            self
        } else {
            self.after_all(frames.drop_last(), setup).after(frames.last(), setup)
        }
    }

    /// What the player is told in several frames.
    pub open spec fn told_all(self, frames: Seq<Frame>, setup: Setup) -> Seq<AudioCommand>
        decreases frames.len(),
    {
        if frames.len() == 0 {
            Seq::empty()
        } else {
            self.told_all(frames.drop_last(), setup) + self.after_all(
                frames.drop_last(),
                setup,
            ).told(frames.last(), setup)
        }
    }

    /// What is selected exists.
    pub open spec fn wf(self, setup: Setup) -> bool {
        self.gui.wf(setup.bank.len() as int, setup.generators)
    }
}

/// The setup of a desk.
pub open spec fn setup_of(desk: Desk) -> Setup {
    Setup {
        piano: desk.piano@,
        bank: desk.effects@,
        generators: desk.generators.len() as int,
    }
}

/// Striking keys changes neither the mode nor, in perform mode, the effects.
proof fn lemma_struck_keeps(
    gui: GuiView,
    struck: Seq<Keycode>,
    bank: Seq<EffectDefinition>,
    generators: int,
)
    ensures
        ({
            let after = gui.struck(struck, bank, generators).0;
            &&& after.mode == gui.mode
            &&& after.throttle_ms == gui.throttle_ms
            &&& gui.mode == Modes::PERFORM ==> after.effect_stack == gui.effect_stack
        }),
{
}

/// A desk that begins a frame, then lets the slider set a value if it is due and
/// the mouse is at the top of the screen, and then ends the frame, is taken by
/// one frame to the next session, and offers the player what the frame tells it.
pub proof fn law_desk_lives_by_frames<A: Arithmetic>(
    ar: A,
    first: Desk,
    keys: Seq<Keycode>,
    struck: Seq<Keycode>,
    pitches: Seq<u32>,
    second: Desk,
    elapsed: Option<u128>,
    x: i32,
    y: i32,
    value: u32,
    third: Desk,
    end: FrameEnd,
    last: Desk,
)
    requires
        first.wf(),
        begun(ar, first, keys, struck, pitches, second),
        if is_due(second.gui@, elapsed) && y < SLIDER_HEIGHT {
            slid(ar, second, x, value, third)
        } else {
            third == second
        },
        ended(third, keys, struck, end, last),
    ensures
        ({
            let frame = Frame { keys, pitches, elapsed, y: y as int, value };
            let setup = setup_of(first);
            &&& Session::of(last) == Session::of(first).after(frame, setup)
            &&& offered(first.producer, Session::of(first).told(frame, setup), last.producer)
            &&& setup_of(last) == setup
            &&& end.quit == keys.contains(Keycode::Escape)
            &&& end.redraw == exists|key: Keycode| #[trigger]
                keys.contains(key) && !first.pressed@.contains(key)
        }),
{
    let frame = Frame { keys, pitches, elapsed, y: y as int, value };
    let setup = setup_of(first);
    let session = Session::of(first);
    lemma_struck_keeps(first.gui@, struck, setup.bank, setup.generators);
    lemma_offered_none(second.producer);
    lemma_offered_both(
        first.producer,
        session.piano_commands(frame, setup) + session.edit_commands(frame, setup),
        second.producer,
        session.slide_commands(frame, setup),
        third.producer,
    );
    assert(Session::of(last) == session.after(frame, setup));
    if struck.len() > 0 {
        lemma_without(keys, first.pressed@, struck[0]);
        assert(struck.contains(struck[0]));
    }
    if exists|key: Keycode| #[trigger] keys.contains(key) && !first.pressed@.contains(key) {
        let key = choose|key: Keycode| #[trigger]
            keys.contains(key) && !first.pressed@.contains(key);
        lemma_without(keys, first.pressed@, key);
        assert(struck.contains(key));
    }
}

/// A value of the slider leaves what is selected in being.
proof fn lemma_value_wf(gui: GuiView, value: u32, effects: int, generators: int)
    requires
        gui.wf(effects, generators),
        gui.effect_stack.len() > 0,
    ensures
        gui.with_value(value).wf(effects, generators),
        gui.with_value(value).effect_stack == gui.effect_stack,
{
    let after = gui.with_value(value);
    assert forall|i: int| 0 <= i < after.effect_stack.len() implies (
    #[trigger] after.effect_params[i]).len() == after.effect_stack[i].spec_param_count() by {
        assert(gui.effect_params[i].len() == gui.effect_stack[i].spec_param_count());
    }
}

/// So does the key that switches the mode.
proof fn lemma_mode_wf(gui: GuiView, struck: Seq<Keycode>, effects: int, generators: int)
    requires
        gui.wf(effects, generators),
    ensures
        gui.mode_struck(struck).wf(effects, generators),
        gui.mode_struck(struck).effect_stack == gui.effect_stack,
{
    let after = gui.mode_struck(struck);
    assert forall|i: int| 0 <= i < after.effect_stack.len() implies (
    #[trigger] after.effect_params[i]).len() == after.effect_stack[i].spec_param_count() by {
        assert(gui.effect_params[i].len() == gui.effect_stack[i].spec_param_count());
    }
}

/// After any frame, what is selected exists, and the time between two values of
/// the slider is what it was.
pub proof fn law_frame_keeps_order(session: Session, frame: Frame, setup: Setup)
    requires
        session.wf(setup),
    ensures
        session.after(frame, setup).wf(setup),
        session.after(frame, setup).gui.throttle_ms == session.gui.throttle_ms,
{
    let struck = session.struck(frame);
    let there = session.selected(frame, setup);
    let effects = setup.bank.len() as int;
    lemma_struck_wf(session.gui, struck, setup.bank, setup.generators);
    lemma_struck_keeps(session.gui, struck, setup.bank, setup.generators);
    if session.slides(frame) {
        lemma_value_wf(there, frame.value, effects, setup.generators);
        lemma_mode_wf(there.with_value(frame.value), struck, effects, setup.generators);
    } else {
        lemma_mode_wf(there, struck, effects, setup.generators);
    }
}

/// After any number of frames, what is selected exists, and the time between two
/// values of the slider is what it was.
pub proof fn law_frames_keep_order(session: Session, frames: Seq<Frame>, setup: Setup)
    requires
        session.wf(setup),
    ensures
        session.after_all(frames, setup).wf(setup),
        session.after_all(frames, setup).gui.throttle_ms == session.gui.throttle_ms,
    decreases frames.len(),
{
    if frames.len() > 0 {
        law_frames_keep_order(session, frames.drop_last(), setup);
        law_frame_keeps_order(
            session.after_all(frames.drop_last(), setup),
            frames.last(),
            setup,
        );
    }
}

/// The commands that set a value.
pub open spec fn settings(commands: Seq<AudioCommand>) -> Seq<AudioCommand>
    decreases commands.len(),
{
    if commands.len() == 0 {
        Seq::empty()
    } else {
        let before = settings(commands.drop_last());
        if commands.last() is SetParam {
            before.push(commands.last())
        } else {
            before
        }
    }
}

proof fn lemma_settings_add(first: Seq<AudioCommand>, second: Seq<AudioCommand>)
    ensures
        settings(first + second) == settings(first) + settings(second),
    decreases second.len(),
{
    if second.len() == 0 {
        assert(first + second == first);
    } else {
        lemma_settings_add(first, second.drop_last());
        assert((first + second).drop_last() == first + second.drop_last());
    }
}

proof fn lemma_no_settings(commands: Seq<AudioCommand>)
    requires
        forall|i: int| 0 <= i < commands.len() ==> !(#[trigger] commands[i] is SetParam),
    ensures
        settings(commands) == Seq::<AudioCommand>::empty(),
    decreases commands.len(),
{
    if commands.len() > 0 {
        lemma_no_settings(commands.drop_last());
    }
}

/// The piano gives nothing but presses and releases.
proof fn lemma_only_notes(
    piano: Seq<(Keycode, u32)>,
    pitches: Seq<u32>,
    instrument: usize,
    struck: Seq<Keycode>,
    released: Seq<Keycode>,
)
    ensures
        ({
            let commands = note_commands(piano, pitches, instrument, struck, released);
            forall|i: int|
                0 <= i < commands.len() ==> (#[trigger] commands[i] is Press || commands[i] is Release)
        }),
    decreases piano.len(),
{
    if piano.len() > 0 {
        lemma_only_notes(
            piano.drop_last(),
            pitches.drop_last(),
            instrument,
            struck,
            released,
        );
    }
}

/// The keys that edit the effects give at most one command, and never one that
/// sets a value.
proof fn lemma_edits(
    gui: GuiView,
    struck: Seq<Keycode>,
    bank: Seq<EffectDefinition>,
    generators: int,
)
    ensures
        ({
            let edits = gui.struck(struck, bank, generators).1;
            &&& edits.len() <= 1
            &&& edits.len() == 1 ==> edits[0] is DelEffect || edits[0] is NewEffect
            &&& gui.mode == Modes::PERFORM ==> edits.len() == 0
        }),
{
}

/// In a frame the slider sets a value if and only if the frame began in perform
/// mode, there is an effect, the clock tells that more time has passed since the
/// last value than the limit, and the mouse is at the top of the screen. Then it
/// sets exactly one, of an effect that exists, and of a parameter that this
/// effect has.
pub proof fn law_slider_acts_when_due(session: Session, frame: Frame, setup: Setup)
    requires
        session.wf(setup),
    ensures
        settings(session.told(frame, setup)) == session.slide_commands(frame, setup),
        (settings(session.told(frame, setup)).len() == 1) == (session.gui.mode == Modes::PERFORM
            && session.gui.effect_stack.len() > 0 && (frame.elapsed matches Some(ms) && ms
            > session.gui.throttle_ms) && frame.y < 120),
        settings(session.told(frame, setup)).len() <= 1,
        ({
            let there = session.selected(frame, setup);
            session.slides(frame) ==> {
                &&& there.effect_stack == session.gui.effect_stack
                &&& 0 <= there.current_effect < there.effect_stack.len()
                &&& 0 <= there.current_param
                    <= there.effect_stack[there.current_effect].spec_param_count()
            }
        }),
{
    let struck = session.struck(frame);
    let notes = session.piano_commands(frame, setup);
    let edits = session.edit_commands(frame, setup);
    let slide = session.slide_commands(frame, setup);
    lemma_only_notes(
        setup.piano,
        frame.pitches,
        session.gui.current_instrument as usize,
        struck,
        session.released(frame),
    );
    lemma_edits(session.gui, struck, setup.bank, setup.generators);
    lemma_no_settings(notes);
    lemma_no_settings(edits);
    lemma_settings_add(notes, edits);
    lemma_settings_add(notes + edits, slide);
    assert(settings(slide) == slide) by {
        if slide.len() > 0 {
            assert(slide.drop_last() == Seq::<AudioCommand>::empty());
            assert(settings(slide.drop_last()) == Seq::<AudioCommand>::empty());
            assert(settings(slide) == slide);
        }
    }
    if session.slides(frame) {
        lemma_selected_in_range(session, frame, setup);
    }
}

/// In perform mode the parameter that is selected after the keys of a frame is
/// one that the selected effect has.
proof fn lemma_selected_in_range(session: Session, frame: Frame, setup: Setup)
    requires
        session.wf(setup),
        session.gui.mode == Modes::PERFORM,
        session.gui.effect_stack.len() > 0,
    ensures
        ({
            let there = session.selected(frame, setup);
            &&& there.effect_stack == session.gui.effect_stack
            &&& 0 <= there.current_effect < there.effect_stack.len()
            &&& 0 <= there.current_param
                <= there.effect_stack[there.current_effect].spec_param_count()
        }),
{
    let gui = session.gui;
    let struck = session.struck(frame);
    let there = session.selected(frame, setup);
    let n = gui.effect_params.len() as int;
    lemma_moved_in_range(gui.current_effect, n, struck, Keycode::K, Keycode::J);
    let e = there.current_effect;
    assert(gui.effect_params[e].len() == gui.effect_stack[e].spec_param_count());
}

/// The octave is the number of times that the key for a higher one went down,
/// less the number of times that the key for a lower one did, in frames that
/// began in perform mode.
pub open spec fn octave_moves(session: Session, frames: Seq<Frame>, setup: Setup) -> int
    decreases frames.len(),
{
    if frames.len() == 0 {
        0
    } else {
        let earlier = frames.drop_last();
        let now = session.after_all(earlier, setup);
        let struck = now.struck(frames.last());
        let higher: int = if struck.contains(Keycode::Right) {
            1
        } else {
            0
        };
        let lower: int = if struck.contains(Keycode::Left) {
            1
        } else {
            0
        };
        octave_moves(session, earlier, setup) + if now.gui.mode == Modes::PERFORM {
            higher - lower
        } else {
            0
        }
    }
}

/// The octave moves by the octave keys of perform mode and by nothing else.
pub proof fn law_octave_counts_keys(session: Session, frames: Seq<Frame>, setup: Setup)
    ensures
        session.after_all(frames, setup).gui.current_octave == session.gui.current_octave
            + octave_moves(session, frames, setup),
    decreases frames.len(),
{
    if frames.len() > 0 {
        law_octave_counts_keys(session, frames.drop_last(), setup);
    }
}

// Time

/// The instant at which the slider last set a value: that which `noted` gives
/// for the last frame in which it did, or `start` if there is none.
pub open spec fn last_slide(
    session: Session,
    frames: Seq<Frame>,
    setup: Setup,
    noted: Seq<int>,
    start: int,
) -> int
    decreases frames.len(),
{
    if frames.len() == 0 {
        start
    } else {
        let earlier = frames.drop_last();
        if session.after_all(earlier, setup).slides(frames.last()) {
            noted[frames.len() - 1]
        } else {
            last_slide(session, earlier, setup, noted, start)
        }
    }
}

/// Whether the slider sets a value in frame `t`.
pub open spec fn slides_in(session: Session, frames: Seq<Frame>, setup: Setup, t: int) -> bool {
    session.after_all(frames.take(t), setup).slides(frames[t])
}

/// The clock, in nanoseconds: each frame asks it for the time since the slider
/// last set a value, and notes the time if the slider does.
pub open spec fn clocked(
    session: Session,
    frames: Seq<Frame>,
    setup: Setup,
    asked: Seq<int>,
    noted: Seq<int>,
    start: int,
) -> bool {
    &&& asked.len() == frames.len()
    &&& noted.len() == frames.len()
    &&& forall|t: int|
        0 <= t < frames.len() ==> {
            &&& #[trigger] asked[t] <= noted[t]
            &&& (frames[t].elapsed matches Some(ms) ==> ms == (asked[t] - last_slide(
                session,
                frames.take(t),
                setup,
                noted,
                start,
            )) / 1_000_000)
        }
}

/// The last value is no older than any value before.
proof fn lemma_last_slide(
    session: Session,
    frames: Seq<Frame>,
    setup: Setup,
    asked: Seq<int>,
    noted: Seq<int>,
    start: int,
    a: int,
    b: int,
)
    requires
        session.wf(setup),
        clocked(session, frames, setup, asked, noted, start),
        0 <= a < b <= frames.len(),
        slides_in(session, frames, setup, a),
    ensures
        last_slide(session, frames.take(b), setup, noted, start) >= noted[a],
    decreases b,
{
    let t = b - 1;
    assert(frames.take(b).drop_last() == frames.take(t));
    assert(frames.take(b).last() == frames[t]);
    law_frames_keep_order(session, frames.take(t), setup);
    assert(asked[t] <= noted[t]);
    if a < t {
        lemma_last_slide(session, frames, setup, asked, noted, start, a, t);
    }
}

/// Two values of the slider are more than the limit apart: a frame in which it
/// sets one asks the clock more milliseconds than that after any earlier such
/// frame noted the time.
pub proof fn law_slides_are_apart(
    session: Session,
    frames: Seq<Frame>,
    setup: Setup,
    asked: Seq<int>,
    noted: Seq<int>,
    start: int,
    a: int,
    b: int,
)
    requires
        session.wf(setup),
        clocked(session, frames, setup, asked, noted, start),
        0 <= a < b < frames.len(),
        slides_in(session, frames, setup, a),
        slides_in(session, frames, setup, b),
    ensures
        asked[b] - noted[a] > session.gui.throttle_ms * 1_000_000,
{
    lemma_last_slide(session, frames, setup, asked, noted, start, a, b);
    law_frames_keep_order(session, frames.take(b), setup);
    assert(asked[b] <= noted[b]);
}

// Ranges

/// The effects after some commands.
pub open spec fn stack_after(
    stack: Seq<EffectDefinition>,
    commands: Seq<AudioCommand>,
) -> Seq<EffectDefinition>
    decreases commands.len(),
{
    if commands.len() == 0 {
        stack
    } else {
        let before = stack_after(stack, commands.drop_last());
        match commands.last() {
            AudioCommand::NewEffect(definition) => before.push(definition),
            AudioCommand::DelEffect(index) => if index < before.len() {
                before.remove(index as int)
            } else {
                before
            },
            _ => before,
        }
    }
}

/// The number of generators after some commands.
pub open spec fn generators_after(generators: int, commands: Seq<AudioCommand>) -> int
    decreases commands.len(),
{
    if commands.len() == 0 {
        generators
    } else {
        let before = generators_after(generators, commands.drop_last());
        if commands.last() is NewGenerator {
            before + 1
        } else {
            before
        }
    }
}

/// What a command names exists: the generator, the effect, and the parameter
/// among those that this effect has.
pub open spec fn fits(
    stack: Seq<EffectDefinition>,
    generators: int,
    command: AudioCommand,
) -> bool {
    match command {
        AudioCommand::Press(generator, _, _) => generator < generators,
        AudioCommand::DelEffect(index) => index < stack.len(),
        AudioCommand::SetParam(index, key, _) => {
            &&& index < stack.len()
            &&& key <= stack[index as int].spec_param_count()
        },
        _ => true,
    }
}

/// What each command names exists when its turn comes.
pub open spec fn all_fit(
    stack: Seq<EffectDefinition>,
    generators: int,
    commands: Seq<AudioCommand>,
) -> bool
    decreases commands.len(),
{
    commands.len() == 0 || {
        let earlier = commands.drop_last();
        &&& all_fit(stack, generators, earlier)
        &&& fits(
            stack_after(stack, earlier),
            generators_after(generators, earlier),
            commands.last(),
        )
    }
}

proof fn lemma_fit_adds(
    stack: Seq<EffectDefinition>,
    generators: int,
    first: Seq<AudioCommand>,
    second: Seq<AudioCommand>,
)
    ensures
        stack_after(stack, first + second) == stack_after(stack_after(stack, first), second),
        generators_after(generators, first + second) == generators_after(
            generators_after(generators, first),
            second,
        ),
        all_fit(stack, generators, first + second) == (all_fit(stack, generators, first)
            && all_fit(stack_after(stack, first), generators_after(generators, first), second)),
    decreases second.len(),
{
    if second.len() == 0 {
        assert(first + second == first);
    } else {
        lemma_fit_adds(stack, generators, first, second.drop_last());
        assert((first + second).drop_last() == first + second.drop_last());
    }
}

proof fn lemma_one_fits(stack: Seq<EffectDefinition>, generators: int, command: AudioCommand)
    ensures
        all_fit(stack, generators, seq![command]) == fits(stack, generators, command),
        stack_after(stack, seq![command]) == match command {
            AudioCommand::NewEffect(definition) => stack.push(definition),
            AudioCommand::DelEffect(index) => if index < stack.len() {
                stack.remove(index as int)
            } else {
                stack
            },
            _ => stack,
        },
        generators_after(generators, seq![command]) == if command is NewGenerator {
            generators + 1
        } else {
            generators
        },
{
    let none = seq![command].drop_last();
    assert(none == Seq::<AudioCommand>::empty());
    assert(stack_after(stack, none) == stack);
    assert(generators_after(generators, none) == generators);
    assert(all_fit(stack, generators, none));
}

/// The commands of the piano fit.
proof fn lemma_notes_fit(
    stack: Seq<EffectDefinition>,
    generators: int,
    piano: Seq<(Keycode, u32)>,
    pitches: Seq<u32>,
    instrument: usize,
    struck: Seq<Keycode>,
    released: Seq<Keycode>,
)
    requires
        instrument < generators,
    ensures
        ({
            let commands = note_commands(piano, pitches, instrument, struck, released);
            &&& all_fit(stack, generators, commands)
            &&& stack_after(stack, commands) == stack
            &&& generators_after(generators, commands) == generators
        }),
    decreases piano.len(),
{
    if piano.len() > 0 {
        let key = piano.last().0;
        let pitch = pitches.last();
        let upper = note_commands(
            piano.drop_last(),
            pitches.drop_last(),
            instrument,
            struck,
            released,
        );
        lemma_notes_fit(
            stack,
            generators,
            piano.drop_last(),
            pitches.drop_last(),
            instrument,
            struck,
            released,
        );
        let press = if struck.contains(key) {
            seq![AudioCommand::Press(instrument, key, pitch)]
        } else {
            Seq::<AudioCommand>::empty()
        };
        let release = if released.contains(key) {
            seq![AudioCommand::Release(key)]
        } else {
            Seq::<AudioCommand>::empty()
        };
        lemma_one_fits(stack, generators, AudioCommand::Press(instrument, key, pitch));
        lemma_one_fits(stack, generators, AudioCommand::Release(key));
        lemma_fit_adds(stack, generators, press, release);
        let own = key_commands(key, pitch, instrument, struck, released);
        assert(own == press + release);
        lemma_fit_adds(stack, generators, upper, own);
    }
}

/// What the player is told in a frame names only what exists, and the effects
/// that it leads to are those that the control side shows.
pub proof fn law_frame_commands_fit(
    session: Session,
    frame: Frame,
    setup: Setup,
    generators: int,
)
    requires
        session.wf(setup),
        setup.generators <= generators,
        setup.generators <= usize::MAX,
        session.gui.effect_stack.len() <= usize::MAX,
    ensures
        ({
            let stack = session.gui.effect_stack;
            let told = session.told(frame, setup);
            &&& all_fit(stack, generators, told)
            &&& stack_after(stack, told) == session.after(frame, setup).gui.effect_stack
            &&& generators_after(generators, told) == generators
            &&& session.after(frame, setup).gui.effect_stack.len() <= stack.len() + 1
        }),
{
    let gui = session.gui;
    let stack = gui.effect_stack;
    let struck = session.struck(frame);
    let there = session.selected(frame, setup);
    let notes = session.piano_commands(frame, setup);
    let edits = session.edit_commands(frame, setup);
    let slide = session.slide_commands(frame, setup);
    lemma_notes_fit(
        stack,
        generators,
        setup.piano,
        frame.pitches,
        gui.current_instrument as usize,
        struck,
        session.released(frame),
    );
    lemma_edits(gui, struck, setup.bank, setup.generators);
    lemma_fit_adds(stack, generators, notes, edits);
    lemma_fit_adds(stack, generators, notes + edits, slide);
    assert(all_fit(stack, generators, edits) && stack_after(stack, edits) == there.effect_stack
        && generators_after(generators, edits) == generators) by {
        if edits.len() == 1 {
            assert(edits == seq![edits[0]]);
            lemma_one_fits(stack, generators, edits[0]);
            if edits[0] is DelEffect {
                lemma_moved_in_range(
                    gui.current_effect,
                    stack.len() as int,
                    struck,
                    Keycode::K,
                    Keycode::J,
                );
            }
        } else {
            assert(edits == Seq::<AudioCommand>::empty());
        }
    }
    if session.slides(frame) {
        lemma_selected_in_range(session, frame, setup);
        lemma_one_fits(there.effect_stack, generators, slide[0]);
        assert(slide == seq![slide[0]]);
    }
}

/// However many frames there are, what the player is told in them names only
/// what exists when its turn comes.
pub proof fn law_frames_commands_fit(
    session: Session,
    frames: Seq<Frame>,
    setup: Setup,
    generators: int,
)
    requires
        session.wf(setup),
        setup.generators <= generators,
        setup.generators <= usize::MAX,
        session.gui.effect_stack.len() + frames.len() <= usize::MAX,
    ensures
        ({
            let stack = session.gui.effect_stack;
            let told = session.told_all(frames, setup);
            let after = session.after_all(frames, setup);
            &&& all_fit(stack, generators, told)
            &&& stack_after(stack, told) == after.gui.effect_stack
            &&& generators_after(generators, told) == generators
            &&& after.gui.effect_stack.len() <= stack.len() + frames.len()
        }),
    decreases frames.len(),
{
    if frames.len() > 0 {
        let earlier = frames.drop_last();
        let now = session.after_all(earlier, setup);
        law_frames_commands_fit(session, earlier, setup, generators);
        law_frames_keep_order(session, earlier, setup);
        law_frame_commands_fit(now, frames.last(), setup, generators);
        lemma_fit_adds(
            session.gui.effect_stack,
            generators,
            session.told_all(earlier, setup),
            now.told(frames.last(), setup),
        );
    }
}

proof fn lemma_setup_fits(bank: Seq<GeneratorDefinition>)
    ensures
        all_fit(Seq::empty(), 0, setup_commands(bank)),
        stack_after(Seq::empty(), setup_commands(bank)) == Seq::<EffectDefinition>::empty(),
        generators_after(0, setup_commands(bank)) == bank.len(),
    decreases bank.len(),
{
    let commands = setup_commands(bank);
    if bank.len() > 0 {
        lemma_setup_fits(bank.drop_last());
        assert(commands.drop_last() == setup_commands(bank.drop_last()));
    }
}

/// From the start on, whatever the frames find, every command names only what
/// exists when its turn comes: first the generators are set up, then each press
/// is for one of them, each effect that goes is there, and each value is for an
/// effect that is there and a parameter that it has.
pub proof fn law_commands_fit_from_start(
    generators: Seq<GeneratorDefinition>,
    frames: Seq<Frame>,
    setup: Setup,
)
    requires
        setup.bank.len() > 0,
        0 < generators.len() <= usize::MAX,
        setup.generators == generators.len(),
        frames.len() <= usize::MAX,
    ensures
        all_fit(
            Seq::empty(),
            0,
            setup_commands(generators) + Session::start().told_all(frames, setup),
        ),
{
    lemma_setup_fits(generators);
    law_frames_commands_fit(Session::start(), frames, setup, generators.len() as int);
    lemma_fit_adds(
        Seq::empty(),
        0,
        setup_commands(generators),
        Session::start().told_all(frames, setup),
    );
}

/// A player obeys commands that name only what exists.
pub proof fn law_fitting_commands_are_obeyed(
    rack: Rack,
    stack: Seq<EffectDefinition>,
    generators: int,
    commands: Seq<AudioCommand>,
)
    requires
        all_fit(stack, generators, commands),
        rack.effects.len() == stack.len(),
        rack.generators.len() == generators,
    ensures
        rack.obeys_all(commands),
        rack.after_all(commands).effects.len() == stack_after(stack, commands).len(),
        rack.after_all(commands).generators.len() == generators_after(generators, commands),
    decreases commands.len(),
{
    if commands.len() > 0 {
        let earlier = commands.drop_last();
        law_fitting_commands_are_obeyed(rack, stack, generators, earlier);
        let now = stack_after(stack, earlier);
        assert(rack.after_all(earlier).verdict(commands.last()) == Verdict::Obeyed) by {
            if let AudioCommand::SetParam(index, _, _) = commands.last() {
                assert(now[index as int].spec_param_count() <= MAXIMUM_PARAM_INDEX);
            }
        }
    }
}

// Presses and releases

/// What is heard of a key: `true` for each press, `false` for each release.
pub open spec fn heard(commands: Seq<AudioCommand>, key: Keycode) -> Seq<bool>
    decreases commands.len(),
{
    if commands.len() == 0 {
        Seq::empty()
    } else {
        let before = heard(commands.drop_last(), key);
        match commands.last() {
            AudioCommand::Press(_, k, _) => if k == key {
                before.push(true)
            } else {
                before
            },
            AudioCommand::Release(k) => if k == key {
                before.push(false)
            } else {
                before
            },
            _ => before,
        }
    }
}

/// Whether a key is on the piano.
pub open spec fn on_piano(piano: Seq<(Keycode, u32)>, key: Keycode) -> bool {
    exists|i: int| 0 <= i < piano.len() && (#[trigger] piano[i]).0 == key
}

/// No key is on the piano twice.
pub open spec fn seats_differ(piano: Seq<(Keycode, u32)>) -> bool {
    forall|i: int, j: int|
        0 <= i < j < piano.len() ==> (#[trigger] piano[i]).0 != (#[trigger] piano[j]).0
}

proof fn lemma_heard_adds(first: Seq<AudioCommand>, second: Seq<AudioCommand>, key: Keycode)
    ensures
        heard(first + second, key) == heard(first, key) + heard(second, key),
    decreases second.len(),
{
    if second.len() == 0 {
        assert(first + second == first);
    } else {
        lemma_heard_adds(first, second.drop_last(), key);
        assert((first + second).drop_last() == first + second.drop_last());
    }
}

proof fn lemma_heard_one(command: AudioCommand, key: Keycode)
    ensures
        heard(seq![command], key) == match command {
            AudioCommand::Press(_, k, _) => if k == key {
                seq![true]
            } else {
                Seq::<bool>::empty()
            },
            AudioCommand::Release(k) => if k == key {
                seq![false]
            } else {
                Seq::<bool>::empty()
            },
            _ => Seq::<bool>::empty(),
        },
{
    assert(seq![command].drop_last() == Seq::<AudioCommand>::empty());
    assert(heard(seq![command].drop_last(), key) == Seq::<bool>::empty());
}

/// What is heard of a key that went down, or up, or neither.
pub open spec fn once(down: bool, up: bool) -> Seq<bool> {
    let press: Seq<bool> = if down {
        seq![true]
    } else {
        Seq::empty()
    };
    let release: Seq<bool> = if up {
        seq![false]
    } else {
        Seq::empty()
    };
    press + release
}

proof fn lemma_heard_key(
    own: Keycode,
    pitch: u32,
    instrument: usize,
    struck: Seq<Keycode>,
    released: Seq<Keycode>,
    key: Keycode,
)
    ensures
        heard(key_commands(own, pitch, instrument, struck, released), key) == if own == key {
            once(struck.contains(key), released.contains(key))
        } else {
            Seq::<bool>::empty()
        },
{
    let press = if struck.contains(own) {
        seq![AudioCommand::Press(instrument, own, pitch)]
    } else {
        Seq::<AudioCommand>::empty()
    };
    let release = if released.contains(own) {
        seq![AudioCommand::Release(own)]
    } else {
        Seq::<AudioCommand>::empty()
    };
    lemma_heard_one(AudioCommand::Press(instrument, own, pitch), key);
    lemma_heard_one(AudioCommand::Release(own), key);
    lemma_heard_adds(press, release, key);
    assert(heard(Seq::empty(), key) == Seq::<bool>::empty());
    assert(heard(press + release, key) == if own == key {
        once(struck.contains(key), released.contains(key))
    } else {
        Seq::<bool>::empty()
    });
}

proof fn lemma_heard_piano(
    piano: Seq<(Keycode, u32)>,
    pitches: Seq<u32>,
    instrument: usize,
    struck: Seq<Keycode>,
    released: Seq<Keycode>,
    key: Keycode,
)
    requires
        seats_differ(piano),
    ensures
        heard(note_commands(piano, pitches, instrument, struck, released), key) == if on_piano(
            piano,
            key,
        ) {
            once(struck.contains(key), released.contains(key))
        } else {
            Seq::<bool>::empty()
        },
    decreases piano.len(),
{
    if piano.len() > 0 {
        let upper = piano.drop_last();
        let own = piano.last().0;
        let now = once(struck.contains(key), released.contains(key));
        assert forall|i: int, j: int| 0 <= i < j < upper.len() implies (#[trigger] upper[i]).0 != (
        #[trigger] upper[j]).0 by {
            assert(piano[i].0 != piano[j].0);
        }
        lemma_heard_piano(upper, pitches.drop_last(), instrument, struck, released, key);
        lemma_heard_key(own, pitches.last(), instrument, struck, released, key);
        lemma_heard_adds(
            note_commands(upper, pitches.drop_last(), instrument, struck, released),
            key_commands(own, pitches.last(), instrument, struck, released),
            key,
        );
        if on_piano(upper, key) {
            let i = choose|i: int| 0 <= i < upper.len() && (#[trigger] upper[i]).0 == key;
            assert(piano[i].0 == key);
            assert(piano[i].0 != piano[piano.len() - 1].0);
            assert(now + Seq::<bool>::empty() == now);
        } else {
            assert(Seq::<bool>::empty() + now == now);
            if on_piano(piano, key) {
                let i = choose|i: int| 0 <= i < piano.len() && (#[trigger] piano[i]).0 == key;
                if i < upper.len() {
                    assert(upper[i].0 == key);
                }
            } else {
                assert(piano[piano.len() - 1].0 != key);
            }
        }
    }
}

/// A key is among some keys without others if it is among the ones and not
/// among the others.
proof fn lemma_without(keys: Seq<Keycode>, others: Seq<Keycode>, key: Keycode)
    ensures
        keys_without(keys, others).contains(key) == (keys.contains(key) && !others.contains(key)),
    decreases keys.len(),
{
    reveal(Seq::filter);
    if keys.len() > 0 {
        let shorter = keys.drop_last();
        let before = keys_without(shorter, others);
        let after = keys_without(keys, others);
        lemma_without(shorter, others, key);
        if before.contains(key) {
            let i = choose|i: int| 0 <= i < before.len() && before[i] == key;
            assert(after[i] == key);
        }
        if shorter.contains(key) {
            let i = choose|i: int| 0 <= i < shorter.len() && shorter[i] == key;
            assert(keys[i] == key);
        }
        if keys.last() == key {
            assert(keys[keys.len() - 1] == key);
            if !others.contains(key) {
                assert(after[after.len() - 1] == key);
            }
        }
        if after.contains(key) {
            let i = choose|i: int| 0 <= i < after.len() && after[i] == key;
            if i < before.len() {
                assert(before[i] == key);
            }
        }
        if keys.contains(key) {
            let i = choose|i: int| 0 <= i < keys.len() && keys[i] == key;
            if i < shorter.len() {
                assert(shorter[i] == key);
            }
        }
    } else {
        assert(keys_without(keys, others) == keys);
    }
}

/// In a frame, in either mode, a key of the piano is pressed once if it is down
/// and was not in the frame before, released once if it was down and is not, and
/// else neither. Other keys are neither pressed nor released.
pub proof fn law_key_heard_once(session: Session, frame: Frame, setup: Setup, key: Keycode)
    requires
        seats_differ(setup.piano),
    ensures
        heard(session.told(frame, setup), key) == if on_piano(setup.piano, key) {
            once(
                frame.keys.contains(key) && !session.pressed.contains(key),
                session.pressed.contains(key) && !frame.keys.contains(key),
            )
        } else {
            Seq::<bool>::empty()
        },
{
    let struck = session.struck(frame);
    let released = session.released(frame);
    let notes = session.piano_commands(frame, setup);
    let edits = session.edit_commands(frame, setup);
    let slide = session.slide_commands(frame, setup);
    lemma_without(frame.keys, session.pressed, key);
    lemma_without(session.pressed, frame.keys, key);
    lemma_heard_piano(
        setup.piano,
        frame.pitches,
        session.gui.current_instrument as usize,
        struck,
        released,
        key,
    );
    lemma_edits(session.gui, struck, setup.bank, setup.generators);
    assert(heard(edits, key) == Seq::<bool>::empty()) by {
        if edits.len() == 1 {
            assert(edits == seq![edits[0]]);
            lemma_heard_one(edits[0], key);
        }
    }
    assert(heard(slide, key) == Seq::<bool>::empty()) by {
        if slide.len() == 1 {
            assert(slide == seq![slide[0]]);
            lemma_heard_one(slide[0], key);
        }
    }
    lemma_heard_adds(notes, edits, key);
    lemma_heard_adds(notes + edits, slide, key);
    assert(heard(notes, key) + heard(edits, key) + heard(slide, key) == heard(notes, key));
}

/// Presses and releases in turn, a press first.
pub open spec fn in_turn(heard: Seq<bool>) -> bool {
    forall|i: int| 0 <= i < heard.len() ==> #[trigger] heard[i] == (i % 2 == 0)
}

/// None of the frames quits.
pub open spec fn goes_on(frames: Seq<Frame>) -> bool {
    forall|t: int|
        0 <= t < frames.len() ==> !(#[trigger] frames[t]).keys.contains(Keycode::Escape)
}

proof fn lemma_heard_in_turn(frames: Seq<Frame>, setup: Setup, key: Keycode)
    requires
        seats_differ(setup.piano),
        goes_on(frames),
    ensures
        ({
            let told = heard(Session::start().told_all(frames, setup), key);
            let after = Session::start().after_all(frames, setup);
            &&& in_turn(told)
            &&& (told.len() % 2 == 1) == (on_piano(setup.piano, key) && after.pressed.contains(key))
            &&& frames.len() > 0 ==> after.pressed == frames.last().keys
        }),
    decreases frames.len(),
{
    if frames.len() > 0 {
        let earlier = frames.drop_last();
        assert forall|t: int| 0 <= t < earlier.len() implies !(
        #[trigger] earlier[t]).keys.contains(Keycode::Escape) by {
            assert(earlier[t] == frames[t]);
        }
        lemma_heard_in_turn(earlier, setup, key);
        lemma_turn_goes_on(frames, setup, key);
        assert(!frames[frames.len() - 1].keys.contains(Keycode::Escape));
    }
}

/// One more frame goes on in turn.
proof fn lemma_turn_goes_on(frames: Seq<Frame>, setup: Setup, key: Keycode)
    requires
        seats_differ(setup.piano),
        frames.len() > 0,
        ({
            let earlier = frames.drop_last();
            let told = heard(Session::start().told_all(earlier, setup), key);
            let now = Session::start().after_all(earlier, setup);
            &&& in_turn(told)
            &&& (told.len() % 2 == 1) == (on_piano(setup.piano, key) && now.pressed.contains(key))
        }),
    ensures
        ({
            let told = heard(Session::start().told_all(frames, setup), key);
            &&& in_turn(told)
            &&& (told.len() % 2 == 1) == (on_piano(setup.piano, key)
                && frames.last().keys.contains(key))
        }),
{
    let earlier = frames.drop_last();
    let now = Session::start().after_all(earlier, setup);
    law_key_heard_once(now, frames.last(), setup, key);
    lemma_heard_adds(
        Session::start().told_all(earlier, setup),
        now.told(frames.last(), setup),
        key,
    );
}

/// From the start to the frame that quits, each key is pressed and released in
/// turn, a press first.
pub proof fn law_presses_alternate(frames: Seq<Frame>, setup: Setup, key: Keycode)
    requires
        seats_differ(setup.piano),
        frames.len() > 0 ==> goes_on(frames.drop_last()),
    ensures
        in_turn(heard(Session::start().told_all(frames, setup), key)),
{
    if frames.len() > 0 {
        lemma_heard_in_turn(frames.drop_last(), setup, key);
        lemma_turn_goes_on(frames, setup, key);
    }
}

/// Between two frames that do not quit, the session remembers the keys of the
/// former.
pub proof fn law_session_remembers_keys(session: Session, frames: Seq<Frame>, setup: Setup)
    requires
        frames.len() > 0,
        !frames.last().keys.contains(Keycode::Escape),
    ensures
        session.after_all(frames, setup).pressed == frames.last().keys,
{
}

// The piano

/// The number of keys in some rows: where the next row begins on the piano.
pub open spec fn row_start(rows: Seq<Seq<Keycode>>) -> int
    decreases rows.len(),
{
    if rows.len() == 0 {
        0
    } else {
        row_start(rows.drop_last()) + rows.last().len()
    }
}

/// A key of the piano is one of a row, at its pitch, and stands where the row
/// has it.
proof fn lemma_seat<A: Arithmetic>(
    ar: A,
    rows: Seq<Seq<Keycode>>,
    piano: Seq<(Keycode, u32)>,
    p: int,
) -> (seat: (int, int))
    requires
        rows_at_pitch(ar, rows, piano),
        0 <= p < piano.len(),
    ensures
        0 <= seat.0 < rows.len(),
        0 <= seat.1 < rows[seat.0].len(),
        p == row_start(rows.take(seat.0)) + seat.1,
        piano[p].0 == rows[seat.0][seat.1],
        evaluates(ar, edo12_from_c(seat_note(seat.0, seat.1)), piano[p].1),
    decreases rows.len(),
{
    let last = rows.len() - 1;
    let upper = piano.len() - rows.last().len();
    lemma_row_start(ar, rows.drop_last(), piano.take(upper));
    if p < upper {
        let seat = lemma_seat(ar, rows.drop_last(), piano.take(upper), p);
        assert(rows.drop_last()[seat.0] == rows[seat.0]);
        assert(rows.drop_last().take(seat.0) == rows.take(seat.0));
        seat
    } else {
        let row = piano.skip(upper);
        assert(row_at_pitch(ar, rows.last(), last, row));
        assert(row[p - upper] == piano[p]);
        assert(rows.take(last) == rows.drop_last());
        (last, p - upper)
    }
}

proof fn lemma_row_start<A: Arithmetic>(
    ar: A,
    rows: Seq<Seq<Keycode>>,
    piano: Seq<(Keycode, u32)>,
)
    requires
        rows_at_pitch(ar, rows, piano),
    ensures
        piano.len() == row_start(rows),
    decreases rows.len(),
{
    if rows.len() > 0 {
        let upper = piano.len() - rows.last().len();
        lemma_row_start(ar, rows.drop_last(), piano.take(upper));
    }
}

/// A key of a row is on the piano.
proof fn lemma_seated<A: Arithmetic>(
    ar: A,
    rows: Seq<Seq<Keycode>>,
    piano: Seq<(Keycode, u32)>,
    i: int,
    j: int,
)
    requires
        rows_at_pitch(ar, rows, piano),
        0 <= i < rows.len(),
        0 <= j < rows[i].len(),
    ensures
        on_piano(piano, rows[i][j]),
    decreases rows.len(),
{
    let last = rows.len() - 1;
    let upper = piano.len() - rows.last().len();
    let key = rows[i][j];
    if i < last {
        let above = piano.take(upper);
        assert(rows.drop_last()[i] == rows[i]);
        lemma_seated(ar, rows.drop_last(), above, i, j);
        let p = choose|p: int| 0 <= p < above.len() && (#[trigger] above[p]).0 == key;
        assert(piano[p].0 == key);
    } else {
        let row = piano.skip(upper);
        assert(row_at_pitch(ar, rows.last(), last, row));
        assert(row[j].0 == key);
        assert(piano[upper + j].0 == key);
    }
}

/// The piano holds the keys of the four rows, each once, and no others.
pub proof fn law_piano_holds_rows<A: Arithmetic>(ar: A, piano: Seq<(Keycode, u32)>)
    requires
        rows_at_pitch(ar, key_rows(), piano),
    ensures
        seats_differ(piano),
        forall|key: Keycode| #[trigger]
            on_piano(piano, key) == exists|i: int, j: int|
                0 <= i < key_rows().len() && 0 <= j < key_rows()[i].len()
                    && #[trigger] key_rows()[i][j] == key,
{
    let rows = key_rows();
    assert forall|p: int, q: int| 0 <= p < q < piano.len() implies (#[trigger] piano[p]).0 != (
    #[trigger] piano[q]).0 by {
        let a = lemma_seat(ar, rows, piano, p);
        let b = lemma_seat(ar, rows, piano, q);
        if piano[p].0 == piano[q].0 {
            law_piano_keys_differ(a.0, a.1, b.0, b.1);
        }
    }
    assert forall|key: Keycode| #[trigger]
        on_piano(piano, key) == exists|i: int, j: int|
            0 <= i < rows.len() && 0 <= j < rows[i].len() && #[trigger] rows[i][j] == key by {
        if on_piano(piano, key) {
            let p = choose|p: int| 0 <= p < piano.len() && (#[trigger] piano[p]).0 == key;
            let seat = lemma_seat(ar, rows, piano, p);
            assert(rows[seat.0][seat.1] == key);
        }
        if exists|i: int, j: int|
            0 <= i < rows.len() && 0 <= j < rows[i].len() && #[trigger] rows[i][j] == key {
            let (i, j) = choose|i: int, j: int|
                0 <= i < rows.len() && 0 <= j < rows[i].len() && #[trigger] rows[i][j] == key;
            lemma_seated(ar, rows, piano, i, j);
        }
    }
}

/// A press among the commands of the piano is for a struck key of it, at the
/// pitch that goes with the key.
proof fn lemma_press_from(
    piano: Seq<(Keycode, u32)>,
    pitches: Seq<u32>,
    instrument: usize,
    struck: Seq<Keycode>,
    released: Seq<Keycode>,
    c: int,
) -> (p: int)
    requires
        pitches.len() == piano.len(),
        ({
            let commands = note_commands(piano, pitches, instrument, struck, released);
            0 <= c < commands.len() && commands[c] is Press
        }),
    ensures
        0 <= p < piano.len(),
        struck.contains(piano[p].0),
        note_commands(piano, pitches, instrument, struck, released)[c] == AudioCommand::Press(
            instrument,
            piano[p].0,
            pitches[p],
        ),
    decreases piano.len(),
{
    let upper = note_commands(
        piano.drop_last(),
        pitches.drop_last(),
        instrument,
        struck,
        released,
    );
    if c < upper.len() {
        lemma_press_from(
            piano.drop_last(),
            pitches.drop_last(),
            instrument,
            struck,
            released,
            c,
        )
    } else {
        piano.len() - 1
    }
}

/// A press is for the selected generator, and its pitch is that of the key's
/// place on the keyboard, raised by the octave: a column on is a whole tone up,
/// a row down is a fourth down.
pub proof fn law_press_has_pitch_of_seat<A: Arithmetic>(
    ar: A,
    session: Session,
    frame: Frame,
    setup: Setup,
    octave: i32,
    c: int,
)
    requires
        rows_at_pitch(ar, key_rows(), setup.piano),
        session.gui.current_octave == octave,
        at_octave(ar, setup.piano, octave, session.struck(frame), frame.pitches),
        0 <= c < session.told(frame, setup).len(),
        session.told(frame, setup)[c] is Press,
    ensures
        exists|i: int, j: int, own: u32, pitch: u32|
            {
                &&& 0 <= i < key_rows().len()
                &&& 0 <= j < key_rows()[i].len()
                &&& #[trigger] evaluates(ar, edo12_from_c(seat_note(i, j)), own)
                &&& #[trigger] evaluates(ar, octaves_up(own, octave), pitch)
                &&& session.told(frame, setup)[c] == AudioCommand::Press(
                    session.gui.current_instrument as usize,
                    key_rows()[i][j],
                    pitch,
                )
            },
{
    let instrument = session.gui.current_instrument as usize;
    let struck = session.struck(frame);
    let notes = session.piano_commands(frame, setup);
    lemma_edits(session.gui, struck, setup.bank, setup.generators);
    assert(c < notes.len());
    let p = lemma_press_from(
        setup.piano,
        frame.pitches,
        instrument,
        struck,
        session.released(frame),
        c,
    );
    let (i, j) = lemma_seat(ar, key_rows(), setup.piano, p);
    let own = setup.piano[p].1;
    let pitch = frame.pitches[p];
    assert(evaluates(ar, edo12_from_c(seat_note(i, j)), own));
    assert(evaluates(ar, octaves_up(own, octave), pitch));
}

} // verus!
