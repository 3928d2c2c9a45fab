//! The control side's state: what is selected, and a copy of the effects as the
//! player should have them.

use vstd::prelude::*;

use crate::arithmetic::ONE;
use crate::command::{lemma_offered_none, offer, offered, AudioCommand, CommandSender};
use crate::effect::{effect_defaults, EffectDefinition, MAXIMUM_PARAM_INDEX};
use crate::keys::{contains_key, Keycode};

verus! {

/// What the keys do besides sounding notes.
#[derive(Clone, Copy, PartialEq, Eq, Structural, Debug)]
pub enum Modes {
    PERFORM,
    EDIT,
}

/// The column of the effects in use, in edit mode.
pub const STACK_COLUMN: usize = 0;

/// The column of the effects to choose from.
pub const BANK_COLUMN: usize = 1;

/// The column of the instruments to choose from.
pub const INSTRUMENT_COLUMN: usize = 2;

pub struct GUI {
    /// How many milliseconds pass at least between two values of the slider.
    pub throttle_ms: u128,
    pub edit_column: usize,
    pub current_instrument: usize,
    pub current_effect: usize,
    /// The parameter that the slider sets: 0 is the wetness.
    pub current_param: usize,
    pub current_to_add: usize,
    pub current_octave: i32,
    pub mode: Modes,
    pub effect_stack: Vec<EffectDefinition>,
    pub effect_params: Vec<Vec<u32>>,
    pub effect_wetness: Vec<u32>,
}

/// The control side's state as the contracts see it.
pub struct GuiView {
    pub throttle_ms: int,
    pub edit_column: int,
    pub current_instrument: int,
    pub current_effect: int,
    pub current_param: int,
    pub current_to_add: int,
    pub current_octave: int,
    pub mode: Modes,
    pub effect_stack: Seq<EffectDefinition>,
    pub effect_params: Seq<Seq<u32>>,
    pub effect_wetness: Seq<u32>,
}

pub open spec fn param_views(params: Seq<Vec<u32>>) -> Seq<Seq<u32>> {
    Seq::new(params.len(), |i: int| params[i]@)
}

impl View for GUI {
    type V = GuiView;

    open spec fn view(&self) -> GuiView {
        GuiView {
            throttle_ms: self.throttle_ms as int,
            edit_column: self.edit_column as int,
            current_instrument: self.current_instrument as int,
            current_effect: self.current_effect as int,
            current_param: self.current_param as int,
            current_to_add: self.current_to_add as int,
            current_octave: self.current_octave as int,
            mode: self.mode,
            effect_stack: self.effect_stack@,
            effect_params: param_views(self.effect_params@),
            effect_wetness: self.effect_wetness@,
        }
    }
}

/// The place before `i` of `n`, round from the first to the last.
pub open spec fn cycle_back(i: int, n: int) -> int {
    if i > 0 {
        i - 1
    } else {
        n - 1
    }
}

/// The place after `i` of `n`, round from the last to the first.
pub open spec fn cycle_on(i: int, n: int) -> int {
    if i < n - 1 {
        i + 1
    } else {
        0
    }
}

/// Where a selection goes when `back` and `on` may have been struck.
pub open spec fn moved(
    i: int,
    n: int,
    struck: Seq<Keycode>,
    back: Keycode,
    on: Keycode,
) -> int {
    let first = if struck.contains(back) {
        cycle_back(i, n)
    } else {
        i
    };
    if struck.contains(on) {
        cycle_on(first, n)
    } else {
        first
    }
}

/// Moves a selection among `n`.
fn move_selection(
    i: usize,
    n: usize,
    struck: &Vec<Keycode>,
    back: Keycode,
    on: Keycode,
) -> (r: usize)
    requires
        0 < n,
    ensures
        r == moved(i as int, n as int, struck@, back, on),
        i < n ==> r < n,
{
    let mut place: usize = i;
    if contains_key(struck, back) {
        place = if place > 0 {
            place - 1
        } else {
            n - 1
        };
    }
    if contains_key(struck, on) {
        place = if place < n - 1 {
            place + 1
        } else {
            0
        };
    }
    place
}

/// The values that an effect's parameters start with.
pub open spec fn starting_params(definition: EffectDefinition) -> Seq<u32> {
    effect_defaults(definition).take(definition.spec_param_count() as int)
}

impl GuiView {
    /// Each effect has its parameters and its wetness, and what is selected
    /// exists, for a bank of `effects` effects and one of `generators`
    /// generators.
    pub open spec fn wf(self, effects: int, generators: int) -> bool {
        &&& self.effect_params.len() == self.effect_stack.len()
        &&& self.effect_wetness.len() == self.effect_stack.len()
        &&& forall|i: int|
            0 <= i < self.effect_stack.len() ==> (#[trigger] self.effect_params[i]).len()
                == self.effect_stack[i].spec_param_count()
        &&& 0 <= self.edit_column <= INSTRUMENT_COLUMN
        &&& 0 <= self.current_instrument < generators
        &&& 0 <= self.current_to_add < effects
        &&& 0 <= self.current_param <= MAXIMUM_PARAM_INDEX
        &&& 0 <= self.current_effect
        &&& if self.effect_stack.len() == 0 {
            self.current_effect == 0
        } else {
            self.current_effect < self.effect_stack.len()
        }
    }

    /// With another effect, at its starting values.
    pub open spec fn with_effect(self, definition: EffectDefinition) -> GuiView {
        GuiView {
            effect_stack: self.effect_stack.push(definition),
            effect_params: self.effect_params.push(starting_params(definition)),
            effect_wetness: self.effect_wetness.push(ONE),
            ..self
        }
    }

    /// The selected effect, moved to the last one if it is behind that.
    pub open spec fn with_effect_in_range(self) -> GuiView {
        if self.current_effect >= self.effect_stack.len() {
            GuiView {
                current_effect: if self.effect_stack.len() == 0 {
                    0
                } else {
                    self.effect_stack.len() - 1
                },
                ..self
            }
        } else {
            self
        }
    }

    /// Without the effect at `index`, if there is one.
    pub open spec fn without_effect(self, index: int) -> GuiView {
        if index < self.effect_stack.len() {
            GuiView {
                effect_stack: self.effect_stack.remove(index),
                effect_params: self.effect_params.remove(index),
                effect_wetness: self.effect_wetness.remove(index),
                ..self
            }.with_effect_in_range()
        } else {
            self.with_effect_in_range()
        }
    }

    /// With the selected parameter of the selected effect at `value`.
    pub open spec fn with_value(self, value: u32) -> GuiView {
        let e = self.current_effect;
        let p = self.current_param;
        if p == 0 {
            GuiView { effect_wetness: self.effect_wetness.update(e, value), ..self }
        } else if e < self.effect_params.len() && p - 1 < self.effect_params[e].len() {
            GuiView {
                effect_params: self.effect_params.update(
                    e,
                    self.effect_params[e].update(p - 1, value),
                ),
                ..self
            }
        } else {
            self
        }
    }

    /// After the octave keys.
    pub open spec fn octave_struck(self, struck: Seq<Keycode>) -> GuiView {
        let lower: int = if struck.contains(Keycode::Left) {
            1
        } else {
            0
        };
        let higher: int = if struck.contains(Keycode::Right) {
            1
        } else {
            0
        };
        GuiView { current_octave: self.current_octave - lower + higher, ..self }
    }

    /// After the keys that select an effect and a parameter, in perform mode.
    pub open spec fn selection_struck(self, struck: Seq<Keycode>) -> GuiView {
        if self.effect_params.len() == 0 {
            self
        } else {
            let e = moved(
                self.current_effect,
                self.effect_params.len() as int,
                struck,
                Keycode::K,
                Keycode::J,
            );
            let count = self.effect_params[e].len() + 1;
            let p = if self.current_param >= count {
                count - 1
            } else {
                self.current_param
            };
            GuiView {
                current_effect: e,
                current_param: moved(p, count as int, struck, Keycode::H, Keycode::L),
                ..self
            }
        }
    }

    /// After the keys that select a column, in edit mode.
    pub open spec fn column_struck(self, struck: Seq<Keycode>) -> GuiView {
        GuiView {
            edit_column: moved(self.edit_column, 3, struck, Keycode::H, Keycode::L),
            ..self
        }
    }

    /// After the keys that act on a column, in edit mode, and what the player
    /// is told.
    pub open spec fn entry_struck(
        self,
        struck: Seq<Keycode>,
        bank: Seq<EffectDefinition>,
        generators: int,
    ) -> (GuiView, Seq<AudioCommand>) {
        if self.edit_column == STACK_COLUMN {
            if self.effect_stack.len() == 0 {
                (self, Seq::empty())
            } else {
                let e = moved(
                    self.current_effect,
                    self.effect_stack.len() as int,
                    struck,
                    Keycode::K,
                    Keycode::J,
                );
                let there = GuiView { current_effect: e, ..self };
                if struck.contains(Keycode::Delete) {
                    (there.without_effect(e), seq![AudioCommand::DelEffect(e as usize)])
                } else {
                    (there, Seq::empty())
                }
            }
        } else if self.edit_column == BANK_COLUMN {
            let a = moved(
                self.current_to_add,
                bank.len() as int,
                struck,
                Keycode::K,
                Keycode::J,
            );
            let there = GuiView { current_to_add: a, ..self };
            if struck.contains(Keycode::Enter) {
                (there.with_effect(bank[a]), seq![AudioCommand::NewEffect(bank[a])])
            } else {
                (there, Seq::empty())
            }
        } else if self.edit_column == INSTRUMENT_COLUMN {
            let i = moved(
                self.current_instrument,
                generators,
                struck,
                Keycode::K,
                Keycode::J,
            );
            (GuiView { current_instrument: i, ..self }, Seq::empty())
        } else {
            (self, Seq::empty())
        }
    }

    /// After the key that switches the mode.
    pub open spec fn mode_struck(self, struck: Seq<Keycode>) -> GuiView {
        if struck.contains(Keycode::Tab) {
            GuiView {
                mode: match self.mode {
                    Modes::PERFORM => Modes::EDIT,
                    Modes::EDIT => Modes::PERFORM,
                },
                ..self
            }
        } else {
            self
        }
    }

    /// After the keys struck in a frame, but for the one that switches the
    /// mode, and what the player is told besides the notes.
    pub open spec fn struck(
        self,
        struck: Seq<Keycode>,
        bank: Seq<EffectDefinition>,
        generators: int,
    ) -> (GuiView, Seq<AudioCommand>) {
        match self.mode {
            Modes::PERFORM => (
                self.octave_struck(struck).selection_struck(struck),
                Seq::empty(),
            ),
            Modes::EDIT => self.column_struck(struck).entry_struck(struck, bank, generators),
        }
    }
}

/// The state at the start.
pub open spec fn new_gui() -> GuiView {
    GuiView {
        throttle_ms: 50,
        edit_column: 1,
        current_instrument: 0,
        current_effect: 0,
        current_param: 0,
        current_to_add: 0,
        current_octave: 0,
        mode: Modes::PERFORM,
        effect_stack: Seq::empty(),
        effect_params: Seq::empty(),
        effect_wetness: Seq::empty(),
    }
}

impl GUI {
    pub fn new() -> (r: GUI)
        ensures
            r@ == new_gui(),
    {
        let r = GUI {
            throttle_ms: 50,
            edit_column: 1,
            current_instrument: 0,
            current_effect: 0,
            current_param: 0,
            current_to_add: 0,
            current_octave: 0,
            mode: Modes::PERFORM,
            effect_stack: Vec::new(),
            effect_params: Vec::new(),
            effect_wetness: Vec::new(),
        };
        assert(r@.effect_params == new_gui().effect_params);
        r
    }

    /// Adds an effect and tells the player so.
    pub fn add_effect(&mut self, producer: &mut CommandSender, to_add: EffectDefinition)
        ensures
            final(self)@ == old(self)@.with_effect(to_add),
            offered(*old(producer), seq![AudioCommand::NewEffect(to_add)], *final(producer)),
    {
        let ghost before = self@;
        let default_values: [u32; MAXIMUM_PARAM_INDEX] = to_add.init().params;
        let count: usize = to_add.param_count();
        let mut values: Vec<u32> = Vec::new();
        for i in 0..count
            invariant
                count == to_add.spec_param_count(),
                default_values@ == effect_defaults(to_add),
                values@ == effect_defaults(to_add).take(i as int),
        {
            values.push(default_values[i]);
            assert(values@ == effect_defaults(to_add).take(i + 1));
        }
        self.effect_stack.push(to_add);
        self.effect_wetness.push(ONE);
        self.effect_params.push(values);
        offer(producer, AudioCommand::NewEffect(to_add));
        assert(self@.effect_params == before.with_effect(to_add).effect_params);
    }

    /// Removes the effect at `index`, if there is one, and tells the player so.
    pub fn del_effect(&mut self, producer: &mut CommandSender, index: usize)
        requires
            index != old(self).effect_stack.len(),
            old(self).effect_params.len() == old(self).effect_stack.len(),
            old(self).effect_wetness.len() == old(self).effect_stack.len(),
        ensures
            final(self)@ == old(self)@.without_effect(index as int),
            offered(
                *old(producer),
                if index < old(self).effect_stack.len() {
                    seq![AudioCommand::DelEffect(index)]
                } else {
                    Seq::empty()
                },
                *final(producer),
            ),
    {
        let ghost before = self@;
        proof {
            lemma_offered_none(*producer);
        }
        if index <= self.effect_stack.len() {
            self.effect_stack.remove(index);
            self.effect_wetness.remove(index);
            self.effect_params.remove(index);
            offer(producer, AudioCommand::DelEffect(index));
        }
        if self.current_effect >= self.effect_stack.len() {
            self.current_effect = if self.effect_stack.len() == 0 {
                0
            } else {
                self.effect_stack.len() - 1
            };
        }
        assert(self@.effect_params == before.without_effect(index as int).effect_params);
    }

    /// Sets the selected parameter of the selected effect and tells the player
    /// so.
    pub fn set_param(&mut self, producer: &mut CommandSender, to_value: u32)
        requires
            old(self).current_param == 0 ==> old(self).current_effect < old(
                self,
            ).effect_wetness.len(),
        ensures
            final(self)@ == old(self)@.with_value(to_value),
            offered(
                *old(producer),
                seq![
                    AudioCommand::SetParam(
                        old(self).current_effect,
                        old(self).current_param,
                        to_value,
                    ),
                ],
                *final(producer),
            ),
    {
        let ghost before = self@;
        let which_effect: usize = self.current_effect;
        let which_param: usize = self.current_param;
        offer(producer, AudioCommand::SetParam(which_effect, which_param, to_value));
        if which_param == 0 {
            self.effect_wetness[which_effect] = to_value;
        } else if which_effect < self.effect_params.len() && which_param - 1
            < self.effect_params[which_effect].len() {
            self.effect_params[which_effect][which_param - 1] = to_value;
        }
        assert(self@.effect_params == before.with_value(to_value).effect_params);
    }

    /// Acts on the keys struck in a frame, but for the one that switches the
    /// mode.
    pub fn strike(
        &mut self,
        producer: &mut CommandSender,
        struck: &Vec<Keycode>,
        bank: &Vec<EffectDefinition>,
        generators: usize,
    )
        requires
            old(self)@.wf(bank.len() as int, generators as int),
            old(self).mode == Modes::PERFORM ==> i32::MIN <= old(self)@.octave_struck(
                struck@,
            ).current_octave <= i32::MAX,
            old(self).mode == Modes::PERFORM && struck@.contains(Keycode::Left) ==> i32::MIN
                < old(self).current_octave,
        ensures
            final(self)@ == old(self)@.struck(struck@, bank@, generators as int).0,
            final(self)@.wf(bank.len() as int, generators as int),
            offered(
                *old(producer),
                old(self)@.struck(struck@, bank@, generators as int).1,
                *final(producer),
            ),
    {
        match self.mode {
            Modes::PERFORM => {
                self.perform(struck);
                proof {
                    lemma_offered_none(*producer);
                }
            },
            Modes::EDIT => {
                self.edit(producer, struck, bank, generators);
            },
        }
        proof {
            lemma_struck_wf(old(self)@, struck@, bank@, generators as int);
        }
    }

    /// Acts on the keys struck in perform mode.
    fn perform(&mut self, struck: &Vec<Keycode>)
        requires
            old(self)@.effect_params.len() > 0 ==> 0 <= old(self)@.current_effect < old(
                self,
            )@.effect_params.len(),
            forall|i: int|
                0 <= i < old(self)@.effect_params.len() ==> (#[trigger] old(
                    self,
                )@.effect_params[i]).len() < usize::MAX,
            i32::MIN <= old(self)@.octave_struck(struck@).current_octave <= i32::MAX,
            struck@.contains(Keycode::Left) ==> i32::MIN < old(self).current_octave,
        ensures
            final(self)@ == old(self)@.octave_struck(struck@).selection_struck(struck@),
    {
        if contains_key(struck, Keycode::Left) {
            self.current_octave = self.current_octave - 1;
        }
        if contains_key(struck, Keycode::Right) {
            self.current_octave = self.current_octave + 1;
        }
        let count: usize = self.effect_params.len();
        if count > 0 {
            self.current_effect = move_selection(
                self.current_effect,
                count,
                struck,
                Keycode::K,
                Keycode::J,
            );
            assert(self@.effect_params[self.current_effect as int].len() < usize::MAX);
            let param_count: usize = self.effect_params[self.current_effect].len() + 1;
            if self.current_param >= param_count {
                self.current_param = param_count - 1;
            }
            self.current_param = move_selection(
                self.current_param,
                param_count,
                struck,
                Keycode::H,
                Keycode::L,
            );
        }
    }

    /// Acts on the keys struck in edit mode.
    fn edit(
        &mut self,
        producer: &mut CommandSender,
        struck: &Vec<Keycode>,
        bank: &Vec<EffectDefinition>,
        generators: usize,
    )
        requires
            old(self)@.wf(bank.len() as int, generators as int),
        ensures
            ({
                let after = old(self)@.column_struck(struck@).entry_struck(
                    struck@,
                    bank@,
                    generators as int,
                );
                &&& final(self)@ == after.0
                &&& offered(*old(producer), after.1, *final(producer))
            }),
    {
        proof {
            lemma_offered_none(*producer);
        }
        self.edit_column = move_selection(self.edit_column, 3, struck, Keycode::H, Keycode::L);
        if self.edit_column == STACK_COLUMN {
            let count: usize = self.effect_stack.len();
            if count > 0 {
                self.current_effect = move_selection(
                    self.current_effect,
                    count,
                    struck,
                    Keycode::K,
                    Keycode::J,
                );
                if contains_key(struck, Keycode::Delete) {
                    self.del_effect(producer, self.current_effect);
                }
            }
        } else if self.edit_column == BANK_COLUMN {
            self.current_to_add = move_selection(
                self.current_to_add,
                bank.len(),
                struck,
                Keycode::K,
                Keycode::J,
            );
            if contains_key(struck, Keycode::Enter) {
                self.add_effect(producer, bank[self.current_to_add]);
            }
        } else if self.edit_column == INSTRUMENT_COLUMN {
            self.current_instrument = move_selection(
                self.current_instrument,
                generators,
                struck,
                Keycode::K,
                Keycode::J,
            );
        }
    }

    /// Switches the mode if its key was struck.
    pub fn switch_mode(&mut self, struck: &Vec<Keycode>)
        ensures
            final(self)@ == old(self)@.mode_struck(struck@),
    {
        if contains_key(struck, Keycode::Tab) {
            self.mode = match self.mode {
                Modes::PERFORM => Modes::EDIT,
                Modes::EDIT => Modes::PERFORM,
            };
        }
    }
}

/// A selection stays in range.
pub proof fn lemma_moved_in_range(
    i: int,
    n: int,
    struck: Seq<Keycode>,
    back: Keycode,
    on: Keycode,
)
    requires
        0 <= i < n,
    ensures
        0 <= moved(i, n, struck, back, on) < n,
{
}

/// Whatever is struck, what is selected exists.
pub proof fn lemma_struck_wf(
    gui: GuiView,
    struck: Seq<Keycode>,
    bank: Seq<EffectDefinition>,
    generators: int,
)
    requires
        gui.wf(bank.len() as int, generators),
    ensures
        gui.struck(struck, bank, generators).0.wf(bank.len() as int, generators),
{
    let after = gui.struck(struck, bank, generators).0;
    assert forall|i: int| 0 <= i < after.effect_stack.len() implies (
    #[trigger] after.effect_params[i]).len() == after.effect_stack[i].spec_param_count() by {
        if i < gui.effect_params.len() {
            assert(gui.effect_params[i].len() == gui.effect_stack[i].spec_param_count());
        }
        if i + 1 < gui.effect_params.len() {
            assert(gui.effect_params[i + 1].len() == gui.effect_stack[i + 1].spec_param_count());
        }
    }
    if gui.mode == Modes::PERFORM && gui.effect_params.len() > 0 {
        let e = after.current_effect;
        assert(gui.effect_params[e].len() == gui.effect_stack[e].spec_param_count());
    }
}

} // verus!
