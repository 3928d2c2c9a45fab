//! The control side: key strokes and the mouse become notes and commands.

use vstd::prelude::*;

use crate::arithmetic::{evaluates, natural, word, Arithmetic, Expr, Term, TWO};
use crate::command::{
    lemma_offered_both, lemma_offered_none, offer, offered, AudioCommand, CommandSender,
};
use crate::effect::EffectDefinition;
use crate::generator::{GeneratorDefinition, CONCERT_PITCH};
use crate::gui::{new_gui, GuiView, Modes, GUI};
use crate::keys::{contains_key, keys_without, without_keys, Keycode};

verus! {

/// 3.0
pub const THREE: u32 = 0x4040_0000;
/// 12.0
pub const TWELVE: u32 = 0x4140_0000;
/// 1920.0
pub const SCREEN_WIDTH: u32 = 0x44f0_0000;
/// -7.0
pub const NOTE_OF_TOPLEFT: u32 = 0xc0e0_0000;

/// The slider works while the mouse is above this line.
pub const SLIDER_HEIGHT: i32 = 120;

/// The generators to choose from.
pub fn generator_bank() -> (r: Vec<GeneratorDefinition>)
    ensures
        r@ == seq![
            GeneratorDefinition::SineOsc,
            GeneratorDefinition::DetunedSaw,
            GeneratorDefinition::WhiteNoise,
        ],
{
    vec![
        GeneratorDefinition::SineOsc,
        GeneratorDefinition::DetunedSaw,
        GeneratorDefinition::WhiteNoise,
    ]
}

/// Every effect that is defined. There are no filters and no equaliser among
/// them.
pub fn defined_effects() -> (r: Vec<EffectDefinition>)
    ensures
        r@ == seq![EffectDefinition::Delay, EffectDefinition::HardClip, EffectDefinition::Pan],
{
    vec![EffectDefinition::Delay, EffectDefinition::HardClip, EffectDefinition::Pan]
}

/// The pitch `note` semitones above the C below concert pitch.
pub open spec fn edo12_from_c(note: Expr) -> Expr {
    word(CONCERT_PITCH).times(word(TWO).powf(word(THREE).plus(note).over(word(TWELVE))))
}

/// The note of the key in column `j` of row `i`: a row down is a fourth down, a
/// column on is a whole tone up.
pub open spec fn seat_note(i: int, j: int) -> Expr {
    word(NOTE_OF_TOPLEFT).minus(natural(5 * i)).plus(natural(2 * j))
}

/// The first row of the piano.
pub open spec fn row_0() -> Seq<Keycode> {
    seq![
        Keycode::Key1,
        Keycode::Key2,
        Keycode::Key3,
        Keycode::Key4,
        Keycode::Key5,
        Keycode::Key6,
        Keycode::Key7,
        Keycode::Key8,
        Keycode::Key9,
        Keycode::Key0,
        Keycode::Minus,
        Keycode::Equal,
    ]
}

/// The second row of the piano.
pub open spec fn row_1() -> Seq<Keycode> {
    seq![
        Keycode::Q,
        Keycode::W,
        Keycode::E,
        Keycode::R,
        Keycode::T,
        Keycode::Y,
        Keycode::U,
        Keycode::I,
        Keycode::O,
        Keycode::P,
        Keycode::LeftBracket,
        Keycode::RightBracket,
    ]
}

/// The third row of the piano.
pub open spec fn row_2() -> Seq<Keycode> {
    seq![
        Keycode::A,
        Keycode::S,
        Keycode::D,
        Keycode::F,
        Keycode::G,
        Keycode::H,
        Keycode::J,
        Keycode::K,
        Keycode::L,
        Keycode::Semicolon,
        Keycode::Apostrophe,
    ]
}

/// The fourth row of the piano.
pub open spec fn row_3() -> Seq<Keycode> {
    seq![
        Keycode::Z,
        Keycode::X,
        Keycode::C,
        Keycode::V,
        Keycode::B,
        Keycode::N,
        Keycode::M,
        Keycode::Comma,
        Keycode::Dot,
        Keycode::Slash,
    ]
}

/// The keys of the piano as they lie on a US keyboard.
pub open spec fn key_rows() -> Seq<Seq<Keycode>> {
    seq![row_0(), row_1(), row_2(), row_3()]
}

/// The keys of the piano as they lie on a US keyboard.
fn key_matrix() -> (r: Vec<Vec<Keycode>>)
    ensures
        r.len() == key_rows().len(),
        forall|i: int| 0 <= i < r.len() ==> (#[trigger] r@[i])@ == key_rows()[i],
{
    vec![
        vec![
            Keycode::Key1,
            Keycode::Key2,
            Keycode::Key3,
            Keycode::Key4,
            Keycode::Key5,
            Keycode::Key6,
            Keycode::Key7,
            Keycode::Key8,
            Keycode::Key9,
            Keycode::Key0,
            Keycode::Minus,
            Keycode::Equal,
        ],
        vec![
            Keycode::Q,
            Keycode::W,
            Keycode::E,
            Keycode::R,
            Keycode::T,
            Keycode::Y,
            Keycode::U,
            Keycode::I,
            Keycode::O,
            Keycode::P,
            Keycode::LeftBracket,
            Keycode::RightBracket,
        ],
        vec![
            Keycode::A,
            Keycode::S,
            Keycode::D,
            Keycode::F,
            Keycode::G,
            Keycode::H,
            Keycode::J,
            Keycode::K,
            Keycode::L,
            Keycode::Semicolon,
            Keycode::Apostrophe,
        ],
        vec![
            Keycode::Z,
            Keycode::X,
            Keycode::C,
            Keycode::V,
            Keycode::B,
            Keycode::N,
            Keycode::M,
            Keycode::Comma,
            Keycode::Dot,
            Keycode::Slash,
        ],
    ]
}

/// `piano` holds `keys`, which are row `i`, each at its pitch.
pub open spec fn row_at_pitch<A: Arithmetic>(
    ar: A,
    keys: Seq<Keycode>,
    i: int,
    piano: Seq<(Keycode, u32)>,
) -> bool {
    &&& piano.len() == keys.len()
    &&& forall|j: int|
        0 <= j < piano.len() ==> (#[trigger] piano[j]).0 == keys[j] && evaluates(
            ar,
            edo12_from_c(seat_note(i, j)),
            piano[j].1,
        )
}

/// `piano` holds the keys of `rows`, row by row, each at its pitch.
pub open spec fn rows_at_pitch<A: Arithmetic>(
    ar: A,
    rows: Seq<Seq<Keycode>>,
    piano: Seq<(Keycode, u32)>,
) -> bool
    decreases rows.len(),
{
    if rows.len() == 0 {
        piano.len() == 0
    } else {
        let upper = piano.len() - rows.last().len();
        &&& upper >= 0
        &&& rows_at_pitch(ar, rows.drop_last(), piano.take(upper))
        &&& row_at_pitch(ar, rows.last(), rows.len() - 1, piano.skip(upper))
    }
}

/// The pitch of a key.
pub fn pitch_of_seat<A: Arithmetic>(ar: &A, i: usize, j: usize) -> (r: u32)
    requires
        5 * i <= u64::MAX,
        2 * j <= u64::MAX,
    ensures
        evaluates(*ar, edo12_from_c(seat_note(i as int, j as int)), r),
{
    let note: Term = Term::word(ar, NOTE_OF_TOPLEFT).minus(
        ar,
        Term::natural(ar, 5 * (i as u64)),
    ).plus(ar, Term::natural(ar, 2 * (j as u64)));
    Term::word(ar, CONCERT_PITCH).times(
        ar,
        Term::word(ar, TWO).powf(
            ar,
            Term::word(ar, THREE).plus(ar, note).over(ar, Term::word(ar, TWELVE)),
        ),
    ).word
}

/// The keys that sound, each with its pitch.
pub fn make_piano<A: Arithmetic>(ar: &A) -> (r: Vec<(Keycode, u32)>)
    ensures
        rows_at_pitch(*ar, key_rows(), r@),
{
    let matrix: Vec<Vec<Keycode>> = key_matrix();
    let mut piano: Vec<(Keycode, u32)> = Vec::new();
    for i in 0..matrix.len()
        invariant
            matrix.len() == key_rows().len(),
            forall|k: int| 0 <= k < matrix.len() ==> (#[trigger] matrix@[k])@ == key_rows()[k],
            rows_at_pitch(*ar, key_rows().take(i as int), piano@),
    {
        let ghost upper = piano@;
        let columns: usize = matrix[i].len();
        for j in 0..columns
            invariant
                i < matrix.len(),
                matrix.len() == 4,
                columns == matrix@[i as int].len(),
                columns <= 12,
                piano.len() == upper.len() + j,
                piano@.take(upper.len() as int) == upper,
                row_at_pitch(
                    *ar,
                    matrix@[i as int]@.take(j as int),
                    i as int,
                    piano@.skip(upper.len() as int),
                ),
        {
            let ghost so_far = piano@;
            let pitch: u32 = pitch_of_seat(ar, i, j);
            piano.push((matrix[i][j], pitch));
            proof {
                assert(piano@.skip(upper.len() as int) == so_far.skip(upper.len() as int).push(
                    piano@.last(),
                ));
                assert(piano@.take(upper.len() as int) == so_far.take(upper.len() as int));
                assert forall|k: int| 0 <= k <= j implies (#[trigger] piano@.skip(
                    upper.len() as int,
                )[k]).0 == matrix@[i as int]@.take(j + 1)[k] && evaluates(
                    *ar,
                    edo12_from_c(seat_note(i as int, k)),
                    piano@.skip(upper.len() as int)[k].1,
                ) by {
                    if k < j {
                        assert(piano@.skip(upper.len() as int)[k] == so_far.skip(
                            upper.len() as int,
                        )[k]);
                        assert(matrix@[i as int]@.take(j + 1)[k] == matrix@[i as int]@.take(
                            j as int,
                        )[k]);
                    }
                }
            }
        }
        proof {
            assert(matrix@[i as int]@.take(columns as int) == matrix@[i as int]@);
            assert(key_rows().take(i + 1).drop_last() == key_rows().take(i as int));
        }
    }
    assert(key_rows().take(matrix.len() as int) == key_rows());
    piano
}

/// A pitch, octaves higher.
pub open spec fn octaves_up(pitch: u32, octave: i32) -> Expr {
    word(pitch).times(word(TWO).powi(octave))
}

/// `pitches` are the pitches of the struck keys, `octave` octaves up.
pub open spec fn at_octave<A: Arithmetic>(
    ar: A,
    piano: Seq<(Keycode, u32)>,
    octave: i32,
    struck: Seq<Keycode>,
    pitches: Seq<u32>,
) -> bool {
    &&& pitches.len() == piano.len()
    &&& forall|i: int|
        0 <= i < piano.len() && struck.contains((#[trigger] piano[i]).0) ==> evaluates(
            ar,
            octaves_up(piano[i].1, octave),
            pitches[i],
        )
}

/// What the player is told of one key.
pub open spec fn key_commands(
    key: Keycode,
    pitch: u32,
    instrument: usize,
    struck: Seq<Keycode>,
    released: Seq<Keycode>,
) -> Seq<AudioCommand> {
    let press: Seq<AudioCommand> = if struck.contains(key) {
        seq![AudioCommand::Press(instrument, key, pitch)]
    } else {
        Seq::empty()
    };
    let release: Seq<AudioCommand> = if released.contains(key) {
        seq![AudioCommand::Release(key)]
    } else {
        Seq::empty()
    };
    press + release
}

/// What the player is told of the keys of the piano.
pub open spec fn note_commands(
    piano: Seq<(Keycode, u32)>,
    pitches: Seq<u32>,
    instrument: usize,
    struck: Seq<Keycode>,
    released: Seq<Keycode>,
) -> Seq<AudioCommand>
    decreases piano.len(),
{
    if piano.len() == 0 {
        Seq::empty()
    } else {
        note_commands(piano.drop_last(), pitches.drop_last(), instrument, struck, released)
            + key_commands(
            piano.last().0,
            pitches.last(),
            instrument,
            struck,
            released,
        )
    }
}

/// Tells the player of the keys that went down and up.
pub fn play_keys<A: Arithmetic>(
    ar: &A,
    producer: &mut CommandSender,
    piano: &Vec<(Keycode, u32)>,
    instrument: usize,
    octave: i32,
    struck: &Vec<Keycode>,
    released: &Vec<Keycode>,
)
    ensures
        exists|pitches: Seq<u32>|
            {
                &&& #[trigger] at_octave(*ar, piano@, octave, struck@, pitches)
                &&& offered(
                    *old(producer),
                    note_commands(piano@, pitches, instrument, struck@, released@),
                    *final(producer),
                )
            },
{
    let ghost before = *producer;
    let ghost mut pitches: Seq<u32> = Seq::empty();
    proof {
        lemma_offered_none(*producer);
    }
    for i in 0..piano.len()
        invariant
            at_octave(*ar, piano@.take(i as int), octave, struck@, pitches),
            offered(
                before,
                note_commands(piano@.take(i as int), pitches, instrument, struck@, released@),
                *producer,
            ),
    {
        let (key, own_pitch) = piano[i];
        let ghost so_far = note_commands(
            piano@.take(i as int),
            pitches,
            instrument,
            struck@,
            released@,
        );
        let ghost mut pitch: u32 = 0;
        let ghost mut press: Seq<AudioCommand> = Seq::empty();
        let ghost mut release: Seq<AudioCommand> = Seq::empty();
        let ghost at_start = *producer;
        proof {
            lemma_offered_none(*producer);
        }
        if contains_key(struck, key) {
            let up: Term = Term::word(ar, own_pitch).times(
                ar,
                Term::word(ar, TWO).powi(ar, octave),
            );
            offer(producer, AudioCommand::Press(instrument, key, up.word));
            proof {
                pitch = up.word;
                press = seq![AudioCommand::Press(instrument, key, up.word)];
            }
        }
        let ghost between = *producer;
        proof {
            lemma_offered_none(*producer);
        }
        if contains_key(released, key) {
            offer(producer, AudioCommand::Release(key));
            proof {
                release = seq![AudioCommand::Release(key)];
            }
        }
        proof {
            lemma_offered_both(at_start, press, between, release, *producer);
            lemma_offered_both(before, so_far, at_start, press + release, *producer);
            let longer = pitches.push(pitch);
            let keys = piano@.take(i + 1);
            assert(longer.drop_last() == pitches);
            assert(keys.drop_last() == piano@.take(i as int));
            assert(press + release == key_commands(key, pitch, instrument, struck@, released@));
            assert forall|k: int|
                0 <= k < keys.len() && struck@.contains((#[trigger] keys[k]).0) implies evaluates(
                *ar,
                octaves_up(keys[k].1, octave),
                longer[k],
            ) by {
                if k < i {
                    assert(keys[k] == piano@.take(i as int)[k]);
                }
            }
            pitches = longer;
        }
    }
    assert(piano@.take(piano.len() as int) == piano@);
}

/// The control side.
pub struct Desk {
    pub producer: CommandSender,
    pub gui: GUI,
    pub piano: Vec<(Keycode, u32)>,
    /// The keys that were down in the last frame.
    pub pressed: Vec<Keycode>,
    pub generators: Vec<GeneratorDefinition>,
    pub effects: Vec<EffectDefinition>,
}

/// What is to be done at the end of a frame.
#[derive(Clone, Copy, PartialEq, Eq, Structural, Debug)]
pub struct FrameEnd {
    pub redraw: bool,
    pub quit: bool,
}

/// The commands that make a player's generators those of the bank.
pub open spec fn setup_commands(bank: Seq<GeneratorDefinition>) -> Seq<AudioCommand> {
    Seq::new(bank.len(), |i: int| AudioCommand::NewGenerator(bank[i]))
}

/// Where the mouse stands on the slider.
pub open spec fn slider_value(x: i32) -> Expr {
    Expr::Integer(x).over(word(SCREEN_WIDTH))
}

/// Whether the mouse may set a value, `elapsed_ms` after it last did.
pub open spec fn is_due(gui: GuiView, elapsed_ms: Option<u128>) -> bool {
    &&& gui.mode == Modes::PERFORM
    &&& gui.effect_stack.len() > 0
    &&& (elapsed_ms matches Some(ms) && ms > gui.throttle_ms)
}

impl Desk {
    /// What is selected exists.
    pub open spec fn wf(self) -> bool {
        self.gui@.wf(self.effects.len() as int, self.generators.len() as int)
    }

    /// Nothing but the control side's state and the ring differs.
    pub open spec fn same_setup(self, other: Desk) -> bool {
        &&& self.piano == other.piano
        &&& self.generators == other.generators
        &&& self.effects == other.effects
    }

    /// Sets up the control side, and the player's generators.
    pub fn new<A: Arithmetic>(
        ar: &A,
        producer: CommandSender,
        generators: Vec<GeneratorDefinition>,
        effects: Vec<EffectDefinition>,
    ) -> (r: Desk)
        requires
            generators.len() > 0,
            effects.len() > 0,
        ensures
            r.wf(),
            r.gui@ == new_gui(),
            r.generators == generators,
            r.effects == effects,
            r.pressed@ == Seq::<Keycode>::empty(),
            rows_at_pitch(*ar, key_rows(), r.piano@),
            offered(producer, setup_commands(generators@), r.producer),
    {
        let mut ring: CommandSender = producer;
        proof {
            lemma_offered_none(ring);
            assert(setup_commands(generators@.take(0)) == Seq::<AudioCommand>::empty());
        }
        for i in 0..generators.len()
            invariant
                offered(producer, setup_commands(generators@.take(i as int)), ring),
        {
            let ghost between = ring;
            offer(&mut ring, AudioCommand::NewGenerator(generators[i]));
            proof {
                let command = AudioCommand::NewGenerator(generators@[i as int]);
                lemma_offered_both(
                    producer,
                    setup_commands(generators@.take(i as int)),
                    between,
                    seq![command],
                    ring,
                );
                assert(setup_commands(generators@.take(i + 1)) == setup_commands(
                    generators@.take(i as int),
                ) + seq![command]);
            }
        }
        assert(generators@.take(generators.len() as int) == generators@);
        Desk {
            producer: ring,
            gui: GUI::new(),
            piano: make_piano(ar),
            pressed: Vec::new(),
            generators,
            effects,
        }
    }

    /// Begins a frame in which `keys` are down: tells the player of the keys of
    /// the piano that went down and up, and acts on the keys that went down.
    /// Returns these.
    pub fn begin_frame<A: Arithmetic>(&mut self, ar: &A, keys: &Vec<Keycode>) -> (struck: Vec<
        Keycode,
    >)
        requires
            old(self).wf(),
            old(self).octave_can_move(keys@),
        ensures
            final(self).wf(),
            exists|pitches: Seq<u32>|
                #[trigger] begun(*ar, *old(self), keys@, struck@, pitches, *final(self)),
    {
        let ghost before = *self;
        let struck: Vec<Keycode> = without_keys(keys, &self.pressed);
        let released: Vec<Keycode> = without_keys(&self.pressed, keys);
        play_keys(
            ar,
            &mut self.producer,
            &self.piano,
            self.gui.current_instrument,
            self.gui.current_octave,
            &struck,
            &released,
        );
        let ghost between = self.producer;
        let ghost pitches = choose|pitches: Seq<u32>|
            {
                &&& #[trigger] at_octave(
                    *ar,
                    before.piano@,
                    before.gui.current_octave,
                    struck@,
                    pitches,
                )
                &&& offered(
                    before.producer,
                    note_commands(
                        before.piano@,
                        pitches,
                        before.gui.current_instrument,
                        struck@,
                        released@,
                    ),
                    between,
                )
            };
        self.gui.strike(&mut self.producer, &struck, &self.effects, self.generators.len());
        proof {
            lemma_offered_both(
                before.producer,
                note_commands(
                    before.piano@,
                    pitches,
                    before.gui.current_instrument,
                    struck@,
                    released@,
                ),
                between,
                before.gui@.struck(struck@, before.effects@, before.generators.len() as int).1,
                self.producer,
            );
            assert(begun(*ar, before, keys@, struck@, pitches, *self));
        }
        struck
    }

    /// The octave keys that went down do not lead out of the range of `i32`.
    pub open spec fn octave_can_move(self, keys: Seq<Keycode>) -> bool {
        let struck = keys_without(keys, self.pressed@);
        self.gui.mode == Modes::PERFORM ==> {
            &&& struck.contains(Keycode::Left) ==> i32::MIN < self.gui.current_octave
            &&& struck.contains(Keycode::Right) && !struck.contains(Keycode::Left)
                ==> self.gui.current_octave < i32::MAX
        }
    }

    /// Whether [`Desk::begin_frame`] can begin a frame in which `keys` are down.
    pub fn can_begin(&self, keys: &Vec<Keycode>) -> (r: bool)
        ensures
            r == self.octave_can_move(keys@),
    {
        let struck: Vec<Keycode> = without_keys(keys, &self.pressed);
        match self.gui.mode {
            Modes::EDIT => true,
            Modes::PERFORM => {
                let left: bool = contains_key(&struck, Keycode::Left);
                let right: bool = contains_key(&struck, Keycode::Right);
                (!left || i32::MIN < self.gui.current_octave) && (!right || left
                    || self.gui.current_octave < i32::MAX)
            },
        }
    }

    /// Whether the mouse may set a value: in perform mode, if there is an effect
    /// and the last value is long enough ago. `elapsed_ms` is the time since
    /// then, if the clock could tell.
    pub fn slider_due(&self, elapsed_ms: Option<u128>) -> (r: bool)
        ensures
            r == is_due(self.gui@, elapsed_ms),
    {
        match self.gui.mode {
            Modes::PERFORM => match elapsed_ms {
                Some(ms) => self.gui.effect_stack.len() > 0 && ms > self.gui.throttle_ms,
                None => false,
            },
            Modes::EDIT => false,
        }
    }

    /// Sets the selected parameter to where the mouse stands, if it is at the
    /// top of the screen. Returns whether it is.
    pub fn move_slider<A: Arithmetic>(&mut self, ar: &A, x: i32, y: i32) -> (r: bool)
        requires
            old(self).wf(),
            old(self).gui.effect_stack.len() > 0,
        ensures
            final(self).wf(),
            r == (y < SLIDER_HEIGHT),
            !r ==> *final(self) == *old(self),
            r ==> exists|value: u32| #[trigger] slid(*ar, *old(self), x, value, *final(self)),
    {
        if y < SLIDER_HEIGHT {
            let slider: Term = Term::integer(ar, x).over(ar, Term::word(ar, SCREEN_WIDTH));
            assert(evaluates(*ar, slider_value(x), slider.word));
            let ghost desk = *self;
            let ghost before = self.gui@;
            self.gui.set_param(&mut self.producer, slider.word);
            assert(slid(*ar, desk, x, slider.word, *self));
            assert forall|i: int| 0 <= i < self.gui@.effect_stack.len() implies (
            #[trigger] self.gui@.effect_params[i]).len()
                == self.gui@.effect_stack[i].spec_param_count() by {
                assert(before.effect_params[i].len() == before.effect_stack[i].spec_param_count());
            }
            true
        } else {
            false
        }
    }

    /// Ends a frame in which `keys` were down and those of `struck` went down.
    pub fn end_frame(&mut self, keys: Vec<Keycode>, struck: &Vec<Keycode>) -> (r: FrameEnd)
        requires
            old(self).wf(),
        ensures
            final(self).wf(),
            ended(*old(self), keys@, struck@, r, *final(self)),
    {
        self.gui.switch_mode(struck);
        let quit: bool = contains_key(&keys, Keycode::Escape);
        if !quit {
            self.pressed = keys;
        }
        FrameEnd { redraw: struck.len() > 0, quit }
    }
}

/// A frame in which `keys` are down began: those of `struck` went down, the
/// player was told of the notes, at the pitches `pitches`, and of the effects,
/// and the keys that went down had their effect.
pub open spec fn begun<A: Arithmetic>(
    ar: A,
    before: Desk,
    keys: Seq<Keycode>,
    struck: Seq<Keycode>,
    pitches: Seq<u32>,
    after: Desk,
) -> bool {
    &&& after.same_setup(before)
    &&& after.pressed == before.pressed
    &&& struck == keys_without(keys, before.pressed@)
    &&& after.gui@ == before.gui@.struck(
        struck,
        before.effects@,
        before.generators.len() as int,
    ).0
    &&& at_octave(ar, before.piano@, before.gui.current_octave, struck, pitches)
    &&& offered(before.producer, frame_commands(before, pitches, keys), after.producer)
}

/// The slider at `x`, which stands for `value`, set the selected parameter, and
/// the player was told so.
pub open spec fn slid<A: Arithmetic>(
    ar: A,
    before: Desk,
    x: i32,
    value: u32,
    after: Desk,
) -> bool {
    &&& after.same_setup(before)
    &&& after.pressed == before.pressed
    &&& evaluates(ar, slider_value(x), value)
    &&& after.gui@ == before.gui@.with_value(value)
    &&& offered(
        before.producer,
        seq![
            AudioCommand::SetParam(before.gui.current_effect, before.gui.current_param, value),
        ],
        after.producer,
    )
}

/// A frame in which `keys` were down and those of `struck` went down ended.
pub open spec fn ended(
    before: Desk,
    keys: Seq<Keycode>,
    struck: Seq<Keycode>,
    end: FrameEnd,
    after: Desk,
) -> bool {
    &&& after.same_setup(before)
    &&& after.producer == before.producer
    &&& after.gui@ == before.gui@.mode_struck(struck)
    &&& end.redraw == (struck.len() > 0)
    &&& end.quit == keys.contains(Keycode::Escape)
    &&& after.pressed@ == if end.quit {
        before.pressed@
    } else {
        keys
    }
}

/// What the player is told in a frame: of the notes, then of the effects.
pub open spec fn frame_commands(desk: Desk, pitches: Seq<u32>, keys: Seq<Keycode>) -> Seq<
    AudioCommand,
> {
    let struck = keys_without(keys, desk.pressed@);
    note_commands(
        desk.piano@,
        pitches,
        desk.gui.current_instrument,
        struck,
        keys_without(desk.pressed@, keys),
    ) + desk.gui@.struck(struck, desk.effects@, desk.generators.len() as int).1
}

} // verus!
