//! What stands where on the screen.

use vstd::prelude::*;

use crate::effect::EffectDefinition;
use crate::generator::{generator_param_name, GeneratorDefinition};
use crate::gui::{GuiView, Modes};
use crate::screen::{columns_pieces, effects_pieces, screen, values_pieces, Piece};

verus! {

/// The place of the pieces of effect `i` in perform mode: behind the head of the
/// screen and the effects before, each of which takes a title, its wetness and
/// its parameters.
pub open spec fn effect_place(stack: Seq<EffectDefinition>, i: int) -> int
    decreases i,
{
    if i <= 0 {
        8
    } else {
        effect_place(stack, i - 1) + 10 + 5 * stack[i - 1].spec_param_count()
    }
}

/// Five pieces of the screen from place `q` on show a value: a mark if it is the
/// selected one, its name and its level.
pub open spec fn shows_value(
    pieces: Seq<Piece>,
    q: int,
    selected: bool,
    name: &'static str,
    level: u32,
) -> bool {
    &&& 0 <= q
    &&& q + 5 <= pieces.len()
    &&& pieces[q] == Piece::Text(
        if selected {
            ">"
        } else {
            " "
        },
    )
    &&& pieces[q + 1] == Piece::Text("\t")
    &&& pieces[q + 2] == Piece::Text(name)
    &&& pieces[q + 3] == Piece::Text("\t")
    &&& pieces[q + 4] == Piece::Level(level)
}

/// Three pieces of the screen from place `q` on show an entry of a column.
pub open spec fn shows_entry(
    pieces: Seq<Piece>,
    q: int,
    selected: bool,
    title: &'static str,
) -> bool {
    &&& 0 <= q
    &&& q + 3 <= pieces.len()
    &&& pieces[q] == Piece::Text(
        if selected {
            ">"
        } else {
            " "
        },
    )
    &&& pieces[q + 1] == Piece::Text("\t")
    &&& pieces[q + 2] == Piece::Text(title)
}

/// The title of entry `i`; nothing behind the last.
pub open spec fn effect_at(effects: Seq<EffectDefinition>, i: int) -> &'static str {
    if i < effects.len() {
        effects[i].spec_title()
    } else {
        ""
    }
}

/// The title of entry `i`; nothing behind the last.
pub open spec fn generator_at(generators: Seq<GeneratorDefinition>, i: int) -> &'static str {
    if i < generators.len() {
        generators[i].spec_title()
    } else {
        ""
    }
}

proof fn lemma_values(gui: GuiView, i: int, n: int, j: int)
    requires
        0 <= n,
    ensures
        values_pieces(gui, i, n).len() == 5 * n,
        0 <= j < n ==> {
            let p = values_pieces(gui, i, n);
            &&& p[5 * j] == Piece::Text(
                if i == gui.current_effect && j == gui.current_param {
                    ">"
                } else {
                    " "
                },
            )
            &&& p[5 * j + 1] == Piece::Text("\t")
            &&& p[5 * j + 2] == Piece::Text(
                if j == 0 {
                    "wet"
                } else {
                    gui.effect_stack[i].spec_param_name(j - 1)
                },
            )
            &&& p[5 * j + 3] == Piece::Text("\t")
            &&& p[5 * j + 4] == Piece::Level(
                if j == 0 {
                    gui.effect_wetness[i]
                } else {
                    gui.effect_params[i][j - 1]
                },
            )
        },
    decreases n,
{
    if n > 0 {
        lemma_values(gui, i, n - 1, j);
    }
}

proof fn lemma_effects(gui: GuiView, n: int, i: int)
    requires
        0 <= n,
    ensures
        effects_pieces(gui, n).len() == effect_place(gui.effect_stack, n) - 8,
        0 <= i < n ==> {
            let p = effects_pieces(gui, n);
            let q = effect_place(gui.effect_stack, i) - 8;
            let count = gui.effect_stack[i].spec_param_count() as int;
            &&& 0 <= q
            &&& q + 10 + 5 * count <= p.len()
            &&& p[q] == Piece::Text("  ")
            &&& p[q + 1] == Piece::Text(gui.effect_stack[i].spec_title())
            &&& p[q + 2] == Piece::Text("\n")
            &&& p[q + 3] == Piece::Text("  ")
            &&& p.subrange(q + 4, q + 9 + 5 * count) == values_pieces(gui, i, count + 1)
            &&& p[q + 9 + 5 * count] == Piece::Text("\n")
        },
    decreases n,
{
    if n > 0 {
        lemma_effects(gui, n - 1, i);
        let count = gui.effect_stack[n - 1].spec_param_count() as int;
        lemma_values(gui, n - 1, count + 1, 0);
        let p = effects_pieces(gui, n);
        let above = effects_pieces(gui, n - 1);
        if 0 <= i < n - 1 {
            let q = effect_place(gui.effect_stack, i) - 8;
            let own = gui.effect_stack[i].spec_param_count() as int;
            assert(p.subrange(q + 4, q + 9 + 5 * own) == above.subrange(
                q + 4,
                q + 9 + 5 * own,
            ));
        } else if i == n - 1 {
            let q = above.len() as int;
            assert(p.subrange(q + 4, q + 9 + 5 * count) == values_pieces(gui, i, count + 1));
        }
    }
}

/// In perform mode the screen shows the octave, the selected instrument, and
/// each effect in its order with its title, its wetness and its parameters, each
/// with its name and level. The selected value, and no other, is marked.
pub proof fn law_perform_screen(
    gui: GuiView,
    effects: Seq<EffectDefinition>,
    generators: Seq<GeneratorDefinition>,
    i: int,
    j: int,
)
    requires
        gui.wf(effects.len() as int, generators.len() as int),
        gui.mode == Modes::PERFORM,
        i32::MIN <= gui.current_octave <= i32::MAX,
    ensures
        ({
            let p = screen(gui, effects, generators);
            let stack = gui.effect_stack;
            &&& p.len() == effect_place(stack, stack.len() as int)
            &&& p[0] == Piece::Text("\n\n\n")
            &&& p[1] == Piece::Text(
                "TAB switch mode | h ← | k ↑ | j | ↓ l → | mouseX effect slider(hug the top side)\n",
            )
            &&& p[2] == Piece::Text("PERFORM MODE\n")
            &&& p[3] == Piece::Text("octave ")
            &&& p[4] == Piece::Number(gui.current_octave as i32)
            &&& p[5] == Piece::Text(", arrow ← → to change\n")
            &&& p[6] == Piece::Text(generators[gui.current_instrument].spec_title())
            &&& p[7] == Piece::Text("\n")
            &&& 0 <= i < stack.len() ==> {
                let q = effect_place(stack, i);
                let count = stack[i].spec_param_count() as int;
                &&& p[q] == Piece::Text("  ")
                &&& p[q + 1] == Piece::Text(stack[i].spec_title())
                &&& p[q + 2] == Piece::Text("\n")
                &&& p[q + 3] == Piece::Text("  ")
                &&& p[q + 9 + 5 * count] == Piece::Text("\n")
                &&& shows_value(
                    p,
                    q + 4,
                    i == gui.current_effect && gui.current_param == 0,
                    "wet",
                    gui.effect_wetness[i],
                )
                &&& 0 < j <= count ==> shows_value(
                    p,
                    q + 4 + 5 * j,
                    i == gui.current_effect && gui.current_param == j,
                    stack[i].spec_param_name(j - 1),
                    gui.effect_params[i][j - 1],
                )
            }
        }),
{
    let p = screen(gui, effects, generators);
    let stack = gui.effect_stack;
    let n = stack.len() as int;
    let rest = effects_pieces(gui, n);
    lemma_effects(gui, n, i);
    assert(p.skip(8) == rest);
    if 0 <= i < n {
        let q = effect_place(stack, i);
        let count = stack[i].spec_param_count() as int;
        let values = values_pieces(gui, i, count + 1);
        lemma_values(gui, i, count + 1, 0);
        lemma_values(gui, i, count + 1, j);
        assert forall|k: int| 0 <= k < rest.len() implies p[8 + k] == #[trigger] rest[k] by {
            assert(p.skip(8)[k] == rest[k]);
        }
        let shown = rest.subrange(q - 4, q + 1 + 5 * count);
        assert(shown == values);
        assert forall|k: int| 0 <= k < 5 * (count + 1) implies p[q + 4 + k]
            == #[trigger] values[k] by {
            assert(shown[k] == rest[q - 4 + k]);
            assert(p[8 + (q - 4 + k)] == rest[q - 4 + k]);
        }
        assert(p[q] == rest[q - 8]);
        assert(p[q + 1] == rest[q - 7]);
        assert(p[q + 2] == rest[q - 6]);
        assert(p[q + 3] == rest[q - 5]);
        assert(p[q + 9 + 5 * count] == rest[q + 1 + 5 * count]);
        assert(p[q + 4] == values[0]);
        assert(p[q + 5] == values[1]);
        assert(p[q + 6] == values[2]);
        assert(p[q + 7] == values[3]);
        assert(p[q + 8] == values[4]);
        if 0 < j <= count {
            assert(p[q + 4 + 5 * j] == values[5 * j]);
            assert(p[q + 4 + (5 * j + 1)] == values[5 * j + 1]);
            assert(p[q + 4 + (5 * j + 2)] == values[5 * j + 2]);
            assert(p[q + 4 + (5 * j + 3)] == values[5 * j + 3]);
            assert(p[q + 4 + (5 * j + 4)] == values[5 * j + 4]);
        }
    }
}

proof fn lemma_columns(
    gui: GuiView,
    effects: Seq<EffectDefinition>,
    generators: Seq<GeneratorDefinition>,
    n: int,
    i: int,
)
    requires
        0 <= n,
    ensures
        columns_pieces(gui, effects, generators, n).len() == 12 * n,
        0 <= i < n ==> {
            let p = columns_pieces(gui, effects, generators, n);
            &&& shows_entry(
                p,
                12 * i,
                gui.edit_column == 0 && i == gui.current_effect,
                effect_at(gui.effect_stack, i),
            )
            &&& p[12 * i + 3] == Piece::Text("\t")
            &&& shows_entry(
                p,
                12 * i + 4,
                gui.edit_column == 1 && i == gui.current_to_add,
                effect_at(effects, i),
            )
            &&& p[12 * i + 7] == Piece::Text("\t")
            &&& shows_entry(
                p,
                12 * i + 8,
                gui.edit_column == 2 && i == gui.current_instrument,
                generator_at(generators, i),
            )
            &&& p[12 * i + 11] == Piece::Text("\n")
        },
    decreases n,
{
    if n > 0 {
        lemma_columns(gui, effects, generators, n - 1, i);
    }
}

/// In edit mode the screen shows three columns, with a line for each effect in
/// use or to choose from, whichever are more: the effects in use, those to
/// choose from, and the instruments. In the selected column, and in no other,
/// the selected entry is marked.
pub proof fn law_edit_screen(
    gui: GuiView,
    effects: Seq<EffectDefinition>,
    generators: Seq<GeneratorDefinition>,
    i: int,
)
    requires
        gui.mode == Modes::EDIT,
    ensures
        ({
            let p = screen(gui, effects, generators);
            let lines = if gui.effect_stack.len() > effects.len() {
                gui.effect_stack.len() as int
            } else {
                effects.len() as int
            };
            &&& p.len() == 5 + 12 * lines
            &&& p[0] == Piece::Text("\n\n\n")
            &&& p[1] == Piece::Text(
                "TAB switch mode | h ← | k ↑ | j | ↓ l → | mouseX effect slider(hug the top side)\n",
            )
            &&& p[2] == Piece::Text("EDIT MODE\n")
            &&& p[3] == Piece::Text("current effect stack:\tavailable effects:\tinstruments:\n")
            &&& p[4] == Piece::Text(
                "press delete to remove:\tpress enter to add:\tJ and K to choose:\n\n",
            )
            &&& 0 <= i < lines ==> {
                &&& shows_entry(
                    p,
                    5 + 12 * i,
                    gui.edit_column == 0 && i == gui.current_effect,
                    effect_at(gui.effect_stack, i),
                )
                &&& p[5 + 12 * i + 3] == Piece::Text("\t")
                &&& shows_entry(
                    p,
                    5 + 12 * i + 4,
                    gui.edit_column == 1 && i == gui.current_to_add,
                    effect_at(effects, i),
                )
                &&& p[5 + 12 * i + 7] == Piece::Text("\t")
                &&& shows_entry(
                    p,
                    5 + 12 * i + 8,
                    gui.edit_column == 2 && i == gui.current_instrument,
                    generator_at(generators, i),
                )
                &&& p[5 + 12 * i + 11] == Piece::Text("\n")
            }
        }),
{
    let p = screen(gui, effects, generators);
    let lines = if gui.effect_stack.len() > effects.len() {
        gui.effect_stack.len() as int
    } else {
        effects.len() as int
    };
    let rest = columns_pieces(gui, effects, generators, lines);
    lemma_columns(gui, effects, generators, lines, i);
    assert(p.skip(5) == rest);
    assert forall|k: int| 0 <= k < rest.len() implies p[5 + k] == #[trigger] rest[k] by {
        assert(p.skip(5)[k] == rest[k]);
    }
    if 0 <= i < lines {
        assert(p[5 + 12 * i] == rest[12 * i]);
        assert(p[5 + (12 * i + 1)] == rest[12 * i + 1]);
        assert(p[5 + (12 * i + 2)] == rest[12 * i + 2]);
        assert(p[5 + (12 * i + 3)] == rest[12 * i + 3]);
        assert(p[5 + (12 * i + 4)] == rest[12 * i + 4]);
        assert(p[5 + (12 * i + 5)] == rest[12 * i + 5]);
        assert(p[5 + (12 * i + 6)] == rest[12 * i + 6]);
        assert(p[5 + (12 * i + 7)] == rest[12 * i + 7]);
        assert(p[5 + (12 * i + 8)] == rest[12 * i + 8]);
        assert(p[5 + (12 * i + 9)] == rest[12 * i + 9]);
        assert(p[5 + (12 * i + 10)] == rest[12 * i + 10]);
        assert(p[5 + (12 * i + 11)] == rest[12 * i + 11]);
    }
}

/// The titles and the names of the parameters, as they are shown.
pub proof fn law_names(effect: EffectDefinition, generator: GeneratorDefinition, i: int)
    requires
        i >= 0,
    ensures
        effect.spec_title() == match effect {
            EffectDefinition::Delay => "delay",
            EffectDefinition::HardClip => "hard clip",
            EffectDefinition::Pan => "panning",
        },
        generator.spec_title() == match generator {
            GeneratorDefinition::SineOsc => "sine osc",
            GeneratorDefinition::DetunedSaw => "detuned saw",
            GeneratorDefinition::WhiteNoise => "white noise",
        },
        effect.spec_param_count() == match effect {
            EffectDefinition::Delay => 2usize,
            EffectDefinition::HardClip => 2,
            EffectDefinition::Pan => 1,
        },
        i == 0 ==> effect.spec_param_name(i) == match effect {
            EffectDefinition::Delay => "volume",
            EffectDefinition::HardClip => "pregain",
            EffectDefinition::Pan => "pan",
        },
        i == 1 ==> effect.spec_param_name(i) == match effect {
            EffectDefinition::Delay => "time",
            EffectDefinition::HardClip => "postgain",
            EffectDefinition::Pan => "",
        },
        i >= 2 ==> effect.spec_param_name(i) == "",
        i >= 3 ==> generator_param_name(generator, i) == ""@,
        generator == GeneratorDefinition::WhiteNoise ==> {
            &&& generator_param_name(generator, 0) == "N/A"@
            &&& generator_param_name(generator, 1) == "volume"@
            &&& generator_param_name(generator, 2) == ""@
        },
        generator != GeneratorDefinition::WhiteNoise ==> {
            &&& generator_param_name(generator, 0) == "pitch"@
            &&& generator_param_name(generator, 1) == "volume"@
            &&& generator_param_name(generator, 2) == "decay"@
        },
{
}

} // verus!
