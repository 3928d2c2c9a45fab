//! What the screen shows.

use vstd::prelude::*;

use crate::desk::Desk;
use crate::effect::EffectDefinition;
use crate::generator::GeneratorDefinition;
use crate::gui::{GuiView, Modes, BANK_COLUMN, GUI, INSTRUMENT_COLUMN, STACK_COLUMN};

verus! {

/// A piece of what is printed. The pieces follow each other without a gap.
#[derive(Clone, Copy)]
pub enum Piece {
    Text(&'static str),
    /// A whole number, in decimal.
    Number(i32),
    /// The number that a word stands for.
    Level(u32),
}

/// A mark in front of what is selected.
pub open spec fn mark(selected: bool) -> Piece {
    Piece::Text(
        if selected {
            ">"
        } else {
            " "
        },
    )
}

/// A tab.
pub open spec fn tab() -> Piece {
    Piece::Text("\t")
}

/// One value of an effect: its mark, its name and its level.
pub open spec fn value_pieces(gui: GuiView, i: int, j: int) -> Seq<Piece> {
    seq![
        mark(i == gui.current_effect && j == gui.current_param),
        tab(),
        Piece::Text(
            if j == 0 {
                "wet"
            } else {
                gui.effect_stack[i].spec_param_name(j - 1)
            },
        ),
        tab(),
        Piece::Level(
            if j == 0 {
                gui.effect_wetness[i]
            } else {
                gui.effect_params[i][j - 1]
            },
        ),
    ]
}

/// The first `n` values of an effect.
pub open spec fn values_pieces(gui: GuiView, i: int, n: int) -> Seq<Piece>
    decreases n,
{
    if n <= 0 {
        Seq::empty()
    } else {
        values_pieces(gui, i, n - 1) + value_pieces(gui, i, n - 1)
    }
}

/// The first `n` effects with their values.
pub open spec fn effects_pieces(gui: GuiView, n: int) -> Seq<Piece>
    decreases n,
{
    if n <= 0 {
        Seq::empty()
    } else {
        effects_pieces(gui, n - 1) + seq![
            Piece::Text("  "),
            Piece::Text(gui.effect_stack[n - 1].spec_title()),
            Piece::Text("\n"),
            Piece::Text("  "),
        ] + values_pieces(gui, n - 1, gui.effect_stack[n - 1].spec_param_count() + 1) + seq![
            Piece::Text("\n"),
        ]
    }
}

/// The title of an effect; nothing behind the last one.
pub open spec fn effect_title(effects: Seq<EffectDefinition>, i: int) -> Piece {
    Piece::Text(
        if i < effects.len() {
            effects[i].spec_title()
        } else {
            ""
        },
    )
}

/// The title of a generator; nothing behind the last one.
pub open spec fn generator_title(generators: Seq<GeneratorDefinition>, i: int) -> Piece {
    Piece::Text(
        if i < generators.len() {
            generators[i].spec_title()
        } else {
            ""
        },
    )
}

/// A line of a column: a mark, a tab and a title.
pub open spec fn cell_pieces(selected: bool, title: Piece) -> Seq<Piece> {
    seq![mark(selected), tab(), title]
}

/// Line `i` of the three columns of edit mode.
pub open spec fn line_pieces(
    gui: GuiView,
    effects: Seq<EffectDefinition>,
    generators: Seq<GeneratorDefinition>,
    i: int,
) -> Seq<Piece> {
    cell_pieces(
        gui.edit_column == STACK_COLUMN && i == gui.current_effect,
        effect_title(gui.effect_stack, i),
    ).push(tab()) + cell_pieces(
        gui.edit_column == BANK_COLUMN && i == gui.current_to_add,
        effect_title(effects, i),
    ).push(tab()) + cell_pieces(
        gui.edit_column == INSTRUMENT_COLUMN && i == gui.current_instrument,
        generator_title(generators, i),
    ).push(Piece::Text("\n"))
}

/// The first `n` lines of the three columns of edit mode.
pub open spec fn columns_pieces(
    gui: GuiView,
    effects: Seq<EffectDefinition>,
    generators: Seq<GeneratorDefinition>,
    n: int,
) -> Seq<Piece>
    decreases n,
{
    if n <= 0 {
        Seq::empty()
    } else {
        columns_pieces(gui, effects, generators, n - 1) + line_pieces(
            gui,
            effects,
            generators,
            n - 1,
        )
    }
}

/// What stands above everything.
pub open spec fn header_pieces() -> Seq<Piece> {
    seq![
        Piece::Text("\n\n\n"),
        Piece::Text(
            "TAB switch mode | h ← | k ↑ | j | ↓ l → | mouseX effect slider(hug the top side)\n",
        ),
    ]
}

/// The screen.
pub open spec fn screen(
    gui: GuiView,
    effects: Seq<EffectDefinition>,
    generators: Seq<GeneratorDefinition>,
) -> Seq<Piece> {
    header_pieces() + match gui.mode {
        Modes::PERFORM => seq![
            Piece::Text("PERFORM MODE\n"),
            Piece::Text("octave "),
            Piece::Number(gui.current_octave as i32),
            Piece::Text(", arrow ← → to change\n"),
            Piece::Text(generators[gui.current_instrument].spec_title()),
            Piece::Text("\n"),
        ] + effects_pieces(gui, gui.effect_stack.len() as int),
        Modes::EDIT => seq![
            Piece::Text("EDIT MODE\n"),
            Piece::Text("current effect stack:\tavailable effects:\tinstruments:\n"),
            Piece::Text("press delete to remove:\tpress enter to add:\tJ and K to choose:\n\n"),
        ] + columns_pieces(
            gui,
            effects,
            generators,
            if gui.effect_stack.len() >= effects.len() {
                gui.effect_stack.len() as int
            } else {
                effects.len() as int
            },
        ),
    }
}

fn push_mark(pieces: &mut Vec<Piece>, selected: bool)
    ensures
        final(pieces)@ == old(pieces)@.push(mark(selected)),
{
    pieces.push(
        Piece::Text(
            if selected {
                ">"
            } else {
                " "
            },
        ),
    );
}

fn push_tab(pieces: &mut Vec<Piece>)
    ensures
        final(pieces)@ == old(pieces)@.push(tab()),
{
    pieces.push(Piece::Text("\t"));
}

/// Appends a line of a column and what separates it from the next.
fn push_cell(pieces: &mut Vec<Piece>, selected: bool, title: &'static str, end: &'static str)
    ensures
        final(pieces)@ == old(pieces)@ + cell_pieces(selected, Piece::Text(title)).push(
            Piece::Text(end),
        ),
{
    let ghost before = pieces@;
    push_mark(pieces, selected);
    push_tab(pieces);
    pieces.push(Piece::Text(title));
    pieces.push(Piece::Text(end));
    assert(pieces@ == before + cell_pieces(selected, Piece::Text(title)).push(Piece::Text(end)));
}

/// The title of an effect; nothing behind the last one.
fn title_of_effect(effects: &Vec<EffectDefinition>, i: usize) -> (r: &'static str)
    ensures
        Piece::Text(r) == effect_title(effects@, i as int),
{
    if i < effects.len() {
        effects[i].title()
    } else {
        ""
    }
}

/// The title of a generator; nothing behind the last one.
fn title_of_generator(generators: &Vec<GeneratorDefinition>, i: usize) -> (r: &'static str)
    ensures
        Piece::Text(r) == generator_title(generators@, i as int),
{
    if i < generators.len() {
        generators[i].title()
    } else {
        ""
    }
}

/// Appends one value of an effect.
fn push_value(pieces: &mut Vec<Piece>, gui: &GUI, i: usize, j: usize)
    requires
        i < gui.effect_stack.len(),
        i < gui.effect_wetness.len(),
        i < gui.effect_params.len(),
        gui@.effect_params[i as int].len() == gui.effect_stack@[i as int].spec_param_count(),
        j <= gui.effect_stack@[i as int].spec_param_count(),
    ensures
        final(pieces)@ == old(pieces)@ + value_pieces(gui@, i as int, j as int),
{
    let ghost before = pieces@;
    let editing: bool = i == gui.current_effect && j == gui.current_param;
    push_mark(pieces, editing);
    push_tab(pieces);
    pieces.push(
        Piece::Text(
            if j == 0 {
                "wet"
            } else {
                gui.effect_stack[i].param_names()[j - 1]
            },
        ),
    );
    push_tab(pieces);
    pieces.push(
        Piece::Level(
            if j == 0 {
                gui.effect_wetness[i]
            } else {
                gui.effect_params[i][j - 1]
            },
        ),
    );
    assert(pieces@ == before + value_pieces(gui@, i as int, j as int));
}

/// Appends the effects with their values.
fn push_effects(pieces: &mut Vec<Piece>, gui: &GUI)
    requires
        gui.effect_params.len() == gui.effect_stack.len(),
        gui.effect_wetness.len() == gui.effect_stack.len(),
        forall|i: int|
            0 <= i < gui.effect_stack.len() ==> (#[trigger] gui@.effect_params[i]).len()
                == gui.effect_stack@[i].spec_param_count(),
    ensures
        final(pieces)@ == old(pieces)@ + effects_pieces(gui@, gui.effect_stack.len() as int),
{
    let ghost before = pieces@;
    assert(before + effects_pieces(gui@, 0) == before);
    for i in 0..gui.effect_stack.len()
        invariant
            gui.effect_params.len() == gui.effect_stack.len(),
            gui.effect_wetness.len() == gui.effect_stack.len(),
            forall|k: int|
                0 <= k < gui.effect_stack.len() ==> (#[trigger] gui@.effect_params[k]).len()
                    == gui.effect_stack@[k].spec_param_count(),
            pieces@ == before + effects_pieces(gui@, i as int),
    {
        let effect: EffectDefinition = gui.effect_stack[i];
        pieces.push(Piece::Text("  "));
        pieces.push(Piece::Text(effect.title()));
        pieces.push(Piece::Text("\n"));
        pieces.push(Piece::Text("  "));
        let ghost title = pieces@;
        let count: usize = effect.param_count();
        assert(gui@.effect_params[i as int].len() == effect.spec_param_count());
        assert(title + values_pieces(gui@, i as int, 0) == title);
        for j in 0..count + 1
            invariant
                i < gui.effect_stack.len(),
                i < gui.effect_wetness.len(),
                i < gui.effect_params.len(),
                count == gui.effect_stack@[i as int].spec_param_count(),
                gui@.effect_params[i as int].len() == count,
                pieces@ == title + values_pieces(gui@, i as int, j as int),
        {
            push_value(pieces, gui, i, j);
            assert(pieces@ == title + values_pieces(gui@, i as int, j + 1));
        }
        pieces.push(Piece::Text("\n"));
        assert(pieces@ == before + effects_pieces(gui@, i + 1));
    }
}

/// Appends the columns of edit mode.
fn push_columns(
    pieces: &mut Vec<Piece>,
    gui: &GUI,
    effects: &Vec<EffectDefinition>,
    generators: &Vec<GeneratorDefinition>,
    lines: usize,
)
    ensures
        final(pieces)@ == old(pieces)@ + columns_pieces(
            gui@,
            effects@,
            generators@,
            lines as int,
        ),
{
    let ghost before = pieces@;
    assert(before + columns_pieces(gui@, effects@, generators@, 0) == before);
    for i in 0..lines
        invariant
            pieces@ == before + columns_pieces(gui@, effects@, generators@, i as int),
    {
        push_cell(
            pieces,
            gui.edit_column == STACK_COLUMN && i == gui.current_effect,
            title_of_effect(&gui.effect_stack, i),
            "\t",
        );
        push_cell(
            pieces,
            gui.edit_column == BANK_COLUMN && i == gui.current_to_add,
            title_of_effect(effects, i),
            "\t",
        );
        push_cell(
            pieces,
            gui.edit_column == INSTRUMENT_COLUMN && i == gui.current_instrument,
            title_of_generator(generators, i),
            "\n",
        );
        assert(pieces@ == before + columns_pieces(gui@, effects@, generators@, i + 1));
    }
}

/// What the screen shows of a desk.
pub fn redraw(desk: &Desk) -> (pieces: Vec<Piece>)
    requires
        desk.wf(),
    ensures
        pieces@ == screen(desk.gui@, desk.effects@, desk.generators@),
{
    let gui: &GUI = &desk.gui;
    let mut pieces: Vec<Piece> = Vec::new();
    pieces.push(Piece::Text("\n\n\n"));
    pieces.push(
        Piece::Text(
            "TAB switch mode | h ← | k ↑ | j | ↓ l → | mouseX effect slider(hug the top side)\n",
        ),
    );
    match gui.mode {
        Modes::PERFORM => {
            pieces.push(Piece::Text("PERFORM MODE\n"));
            pieces.push(Piece::Text("octave "));
            pieces.push(Piece::Number(gui.current_octave));
            pieces.push(Piece::Text(", arrow ← → to change\n"));
            pieces.push(Piece::Text(desk.generators[gui.current_instrument].title()));
            pieces.push(Piece::Text("\n"));
            push_effects(&mut pieces, gui);
        },
        Modes::EDIT => {
            pieces.push(Piece::Text("EDIT MODE\n"));
            pieces.push(
                Piece::Text("current effect stack:\tavailable effects:\tinstruments:\n"),
            );
            pieces.push(
                Piece::Text("press delete to remove:\tpress enter to add:\tJ and K to choose:\n\n"),
            );
            let lines: usize = if gui.effect_stack.len() >= desk.effects.len() {
                gui.effect_stack.len()
            } else {
                desk.effects.len()
            };
            push_columns(&mut pieces, gui, &desk.effects, &desk.generators, lines);
        },
    }
    assert(pieces@ == screen(desk.gui@, desk.effects@, desk.generators@));
    pieces
}

} // verus!
