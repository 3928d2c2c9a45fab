use keyboard_synth::arithmetic::Arithmetic;
use keyboard_synth::desk::{
    defined_effects, generator_bank, make_piano, pitch_of_seat, Desk, FrameEnd,
};
use keyboard_synth::effect::EffectDefinition;
use keyboard_synth::generator::GeneratorDefinition;
use keyboard_synth::gui::Modes;
use keyboard_synth::keys::{contains_key, without_keys, Keycode};
use keyboard_synth::player::{Instrument, Player, Verdict};
use keyboard_synth::screen::{redraw, Piece};

struct Binary32;

impl Arithmetic for Binary32 {
    fn from_natural(&self, n: u64) -> u32 {
        (n as f32).to_bits()
    }
    fn from_integer(&self, n: i32) -> u32 {
        (n as f32).to_bits()
    }
    fn to_natural(&self, a: u32) -> usize {
        f32::from_bits(a) as usize
    }
    fn neg(&self, a: u32) -> u32 {
        (-f32::from_bits(a)).to_bits()
    }
    fn sin(&self, a: u32) -> u32 {
        f32::from_bits(a).sin().to_bits()
    }
    fn exp(&self, a: u32) -> u32 {
        f32::from_bits(a).exp().to_bits()
    }
    fn fract(&self, a: u32) -> u32 {
        f32::from_bits(a).fract().to_bits()
    }
    fn plus(&self, a: u32, b: u32) -> u32 {
        (f32::from_bits(a) + f32::from_bits(b)).to_bits()
    }
    fn minus(&self, a: u32, b: u32) -> u32 {
        (f32::from_bits(a) - f32::from_bits(b)).to_bits()
    }
    fn times(&self, a: u32, b: u32) -> u32 {
        (f32::from_bits(a) * f32::from_bits(b)).to_bits()
    }
    fn over(&self, a: u32, b: u32) -> u32 {
        (f32::from_bits(a) / f32::from_bits(b)).to_bits()
    }
    fn max(&self, a: u32, b: u32) -> u32 {
        f32::from_bits(a).max(f32::from_bits(b)).to_bits()
    }
    fn powf(&self, a: u32, b: u32) -> u32 {
        f32::from_bits(a).powf(f32::from_bits(b)).to_bits()
    }
    fn powi(&self, a: u32, n: i32) -> u32 {
        f32::from_bits(a).powi(n).to_bits()
    }
    fn clamp(&self, a: u32, low: u32, high: u32) -> u32 {
        f32::from_bits(a).clamp(f32::from_bits(low), f32::from_bits(high)).to_bits()
    }
    fn less(&self, a: u32, b: u32) -> bool {
        f32::from_bits(a) < f32::from_bits(b)
    }
}

const CHUNK: usize = 16;

fn pair() -> (Desk, Player<CHUNK>) {
    let instrument = Instrument::<CHUNK>::new();
    let desk = Desk::new(&Binary32, instrument.producer, generator_bank(), defined_effects());
    (desk, instrument.player)
}

/// A frame in which the keys are down, followed by one in which none is.
fn strike(desk: &mut Desk, keys: &[Keycode]) -> FrameEnd {
    let keys = keys.to_vec();
    assert!(desk.can_begin(&keys));
    let struck = desk.begin_frame(&Binary32, &keys);
    let end = desk.end_frame(keys, &struck);
    let struck = desk.begin_frame(&Binary32, &Vec::new());
    desk.end_frame(Vec::new(), &struck);
    end
}

fn text(pieces: &Vec<Piece>) -> String {
    let mut r = String::new();
    for piece in pieces {
        match piece {
            Piece::Text(t) => r.push_str(t),
            Piece::Number(n) => r.push_str(&n.to_string()),
            Piece::Level(w) => r.push_str(&f32::from_bits(*w).to_string()),
        }
    }
    r
}

fn agree(desk: &Desk, player: &Player<CHUNK>) {
    let gui = &desk.gui;
    assert_eq!(player.effect_stack.len(), gui.effect_stack.len());
    assert_eq!(player.effect_wetness, gui.effect_wetness);
    for i in 0..gui.effect_stack.len() {
        let effect = &player.effect_stack[i];
        assert_eq!(effect.definition, gui.effect_stack[i]);
        let count = gui.effect_stack[i].param_count();
        assert_eq!(effect.data.params[..count], gui.effect_params[i][..]);
    }
}

#[test]
fn banks_hold_what_there_is() {
    assert_eq!(
        generator_bank(),
        vec![
            GeneratorDefinition::SineOsc,
            GeneratorDefinition::DetunedSaw,
            GeneratorDefinition::WhiteNoise
        ]
    );
    assert_eq!(
        defined_effects(),
        vec![EffectDefinition::Delay, EffectDefinition::HardClip, EffectDefinition::Pan]
    );
}

#[test]
fn keys_are_compared_by_name() {
    let some = vec![Keycode::A, Keycode::S, Keycode::A];
    assert!(contains_key(&some, Keycode::S));
    assert!(!contains_key(&some, Keycode::D));
    assert_eq!(without_keys(&some, &vec![Keycode::S]), vec![Keycode::A, Keycode::A]);
    assert_eq!(without_keys(&some, &Vec::new()), some);
}

#[test]
fn piano_is_laid_out_in_whole_tones_and_fourths() {
    let piano = make_piano(&Binary32);
    assert_eq!(piano.len(), 45);
    let pitch = |key: Keycode| {
        let found: Vec<u32> = piano.iter().filter(|p| p.0 == key).map(|p| p.1).collect();
        assert_eq!(found.len(), 1);
        f32::from_bits(found[0])
    };
    let note = |n: f32| 440.0 * f32::powf(2.0, (3.0 + n) / 12.0);
    assert_eq!(pitch(Keycode::Key1), note(-7.0));
    assert_eq!(pitch(Keycode::Key3), 440.0);
    assert_eq!(pitch(Keycode::Equal), note(15.0));
    assert_eq!(pitch(Keycode::Q), note(-12.0));
    assert_eq!(pitch(Keycode::A), note(-17.0));
    assert_eq!(pitch(Keycode::Apostrophe), note(3.0));
    assert_eq!(pitch(Keycode::Z), note(-22.0));
    assert_eq!(pitch(Keycode::Slash), note(-4.0));
    assert_eq!(pitch(Keycode::K), 440.0);
    assert_eq!(pitch(Keycode::Key9), 880.0);
    assert_eq!(pitch(Keycode::S), 220.0);
    assert_eq!(f32::from_bits(pitch_of_seat(&Binary32, 0, 2)), 440.0);
}

#[test]
fn new_desk_sets_up_the_generators() {
    let (desk, mut player) = pair();
    assert_eq!(player.drain(), Verdict::Obeyed);
    let definitions: Vec<GeneratorDefinition> =
        player.generators.iter().map(|g| g.definition).collect();
    assert_eq!(definitions, generator_bank());
    assert!(desk.pressed.is_empty());
    assert_eq!(desk.gui.throttle_ms, 50);
    assert_eq!(desk.gui.edit_column, 1);
    assert_eq!(desk.gui.mode, Modes::PERFORM);
    agree(&desk, &player);
}

#[test]
fn keys_sound_while_they_are_down() {
    let (mut desk, mut player) = pair();
    let keys = vec![Keycode::Key3, Keycode::F1];
    let struck = desk.begin_frame(&Binary32, &keys);
    assert_eq!(struck, keys);
    let end = desk.end_frame(keys.clone(), &struck);
    assert_eq!(end, FrameEnd { redraw: true, quit: false });
    assert_eq!(player.drain(), Verdict::Obeyed);
    assert_eq!(player.playing_keys.len(), 1);
    assert_eq!(player.playing_keys[0].0, Keycode::Key3);
    assert_eq!(f32::from_bits(player.playing_keys[0].1.pitch), 440.0);
    assert!(player.playing_keys[0].1.is_pressed);
    let struck = desk.begin_frame(&Binary32, &keys);
    assert!(struck.is_empty());
    assert_eq!(desk.end_frame(keys, &struck), FrameEnd { redraw: false, quit: false });
    let struck = desk.begin_frame(&Binary32, &Vec::new());
    desk.end_frame(Vec::new(), &struck);
    assert_eq!(player.drain(), Verdict::Obeyed);
    assert!(!player.playing_keys[0].1.is_pressed);
}

#[test]
fn octave_keys_move_the_next_notes() {
    let (mut desk, mut player) = pair();
    // the octave changes after the notes of its own frame
    strike(&mut desk, &[Keycode::Right, Keycode::Key3]);
    strike(&mut desk, &[Keycode::Right]);
    strike(&mut desk, &[Keycode::E]);
    strike(&mut desk, &[Keycode::Left, Keycode::Right]);
    assert_eq!(desk.gui.current_octave, 2);
    strike(&mut desk, &[Keycode::Left]);
    assert_eq!(desk.gui.current_octave, 1);
    player.drain();
    assert_eq!(f32::from_bits(player.playing_keys[0].1.pitch), 440.0);
    let e = 440.0 * f32::powf(2.0, (3.0 + (-7.0 - 5.0 + 4.0)) / 12.0);
    assert_eq!(f32::from_bits(player.playing_keys[1].1.pitch), e * 4.0);
}

#[test]
fn octave_stays_within_its_range() {
    let (mut desk, _player) = pair();
    desk.gui.current_octave = i32::MAX;
    assert!(!desk.can_begin(&vec![Keycode::Right]));
    assert!(desk.can_begin(&vec![Keycode::Left]));
    assert!(desk.can_begin(&vec![Keycode::Left, Keycode::Right]));
    desk.gui.current_octave = i32::MIN;
    assert!(!desk.can_begin(&vec![Keycode::Left]));
    assert!(!desk.can_begin(&vec![Keycode::Left, Keycode::Right]));
    assert!(desk.can_begin(&vec![Keycode::Right]));
    desk.pressed = vec![Keycode::Left];
    assert!(desk.can_begin(&vec![Keycode::Left]));
    desk.pressed = Vec::new();
    desk.gui.mode = Modes::EDIT;
    assert!(desk.can_begin(&vec![Keycode::Left]));
}

#[test]
fn escape_quits_and_tab_switches() {
    let (mut desk, _player) = pair();
    strike(&mut desk, &[Keycode::Tab]);
    assert_eq!(desk.gui.mode, Modes::EDIT);
    strike(&mut desk, &[Keycode::Tab]);
    assert_eq!(desk.gui.mode, Modes::PERFORM);
    let keys = vec![Keycode::Escape];
    let struck = desk.begin_frame(&Binary32, &keys);
    assert_eq!(desk.end_frame(keys, &struck), FrameEnd { redraw: true, quit: true });
    assert!(desk.pressed.is_empty());
}

#[test]
fn edits_reach_the_player() {
    let (mut desk, mut player) = pair();
    strike(&mut desk, &[Keycode::Tab]);
    strike(&mut desk, &[Keycode::Enter]);
    strike(&mut desk, &[Keycode::J]);
    strike(&mut desk, &[Keycode::Enter]);
    // back from the first comes the last
    strike(&mut desk, &[Keycode::K]);
    strike(&mut desk, &[Keycode::K, Keycode::Enter]);
    assert_eq!(desk.gui.current_to_add, 2);
    assert_eq!(
        desk.gui.effect_stack,
        vec![EffectDefinition::Delay, EffectDefinition::HardClip, EffectDefinition::Pan]
    );
    assert_eq!(desk.gui.effect_params[0], vec![0, 0.25f32.to_bits()]);
    assert_eq!(player.drain(), Verdict::Obeyed);
    agree(&desk, &player);
    // to the column of the stack, there to the last, which goes
    strike(&mut desk, &[Keycode::H]);
    assert_eq!(desk.gui.edit_column, 0);
    strike(&mut desk, &[Keycode::K]);
    assert_eq!(desk.gui.current_effect, 2);
    strike(&mut desk, &[Keycode::Delete]);
    assert_eq!(desk.gui.current_effect, 1);
    assert_eq!(player.drain(), Verdict::Obeyed);
    agree(&desk, &player);
    strike(&mut desk, &[Keycode::Delete]);
    strike(&mut desk, &[Keycode::Delete]);
    assert_eq!(desk.gui.current_effect, 0);
    strike(&mut desk, &[Keycode::Delete]);
    assert!(desk.gui.effect_stack.is_empty());
    assert_eq!(player.drain(), Verdict::Obeyed);
    agree(&desk, &player);
}

#[test]
fn instruments_are_chosen_in_their_column() {
    let (mut desk, mut player) = pair();
    strike(&mut desk, &[Keycode::Tab]);
    strike(&mut desk, &[Keycode::L]);
    assert_eq!(desk.gui.edit_column, 2);
    strike(&mut desk, &[Keycode::K]);
    assert_eq!(desk.gui.current_instrument, 2);
    strike(&mut desk, &[Keycode::J]);
    assert_eq!(desk.gui.current_instrument, 0);
    strike(&mut desk, &[Keycode::J]);
    strike(&mut desk, &[Keycode::Q]);
    strike(&mut desk, &[Keycode::L]);
    assert_eq!(desk.gui.edit_column, 0);
    assert_eq!(player.drain(), Verdict::Obeyed);
    let q = player.playing_keys.iter().find(|n| n.0 == Keycode::Q).unwrap();
    assert_eq!(q.1.instrument, 1);
}

#[test]
fn slider_waits_for_its_time() {
    let (mut desk, _player) = pair();
    assert!(!desk.slider_due(Some(1000)));
    strike(&mut desk, &[Keycode::Tab]);
    strike(&mut desk, &[Keycode::Enter]);
    assert!(!desk.slider_due(Some(1000)));
    strike(&mut desk, &[Keycode::Tab]);
    assert!(desk.slider_due(Some(51)));
    assert!(!desk.slider_due(Some(50)));
    assert!(!desk.slider_due(None));
}

#[test]
fn slider_sets_the_selected_value() {
    let (mut desk, mut player) = pair();
    strike(&mut desk, &[Keycode::Tab]);
    strike(&mut desk, &[Keycode::Enter]);
    strike(&mut desk, &[Keycode::Tab]);
    assert!(!desk.move_slider(&Binary32, 960, 120));
    assert_eq!(f32::from_bits(desk.gui.effect_wetness[0]), 1.0);
    assert!(desk.move_slider(&Binary32, 960, 119));
    assert_eq!(f32::from_bits(desk.gui.effect_wetness[0]), 0.5);
    strike(&mut desk, &[Keycode::H]);
    assert_eq!(desk.gui.current_param, 2);
    assert!(desk.move_slider(&Binary32, 480, -5));
    assert_eq!(f32::from_bits(desk.gui.effect_params[0][1]), 0.25);
    strike(&mut desk, &[Keycode::L]);
    assert_eq!(desk.gui.current_param, 0);
    assert_eq!(player.drain(), Verdict::Obeyed);
    agree(&desk, &player);
    assert_eq!(f32::from_bits(player.effect_wetness[0]), 0.5);
}

#[test]
fn selection_shrinks_with_the_effect() {
    let (mut desk, _player) = pair();
    strike(&mut desk, &[Keycode::Tab]);
    strike(&mut desk, &[Keycode::Enter]);
    strike(&mut desk, &[Keycode::K, Keycode::Enter]);
    strike(&mut desk, &[Keycode::Tab]);
    assert_eq!(desk.gui.effect_stack, vec![EffectDefinition::Delay, EffectDefinition::Pan]);
    strike(&mut desk, &[Keycode::H]);
    assert_eq!(desk.gui.current_param, 2);
    strike(&mut desk, &[Keycode::J]);
    assert_eq!(desk.gui.current_effect, 1);
    assert_eq!(desk.gui.current_param, 1);
}

#[test]
fn screen_shows_the_effects_in_perform_mode() {
    let (mut desk, _player) = pair();
    strike(&mut desk, &[Keycode::Tab]);
    strike(&mut desk, &[Keycode::Enter]);
    strike(&mut desk, &[Keycode::Tab]);
    strike(&mut desk, &[Keycode::Left]);
    let expected = "\n\n\nTAB switch mode | h ← | k ↑ | j | ↓ l → | \
mouseX effect slider(hug the top side)\n\
PERFORM MODE\n\
octave -1, arrow ← → to change\n\
sine osc\n  delay\n  >\twet\t1 \tvolume\t0 \ttime\t0.25\n";
    assert_eq!(text(&redraw(&desk)), expected);
}

#[test]
fn screen_shows_three_columns_in_edit_mode() {
    let (mut desk, _player) = pair();
    strike(&mut desk, &[Keycode::Tab]);
    strike(&mut desk, &[Keycode::J]);
    let shown = text(&redraw(&desk));
    let expected = "EDIT MODE\n\
current effect stack:\tavailable effects:\tinstruments:\n\
press delete to remove:\tpress enter to add:\tJ and K to choose:\n\n\
\x20\t\t \tdelay\t \tsine osc\n\
\x20\t\t>\thard clip\t \tdetuned saw\n\
\x20\t\t \tpanning\t \twhite noise\n";
    assert!(shown.ends_with(expected));
    for _ in 0..4 {
        strike(&mut desk, &[Keycode::Enter]);
    }
    let shown = text(&redraw(&desk));
    let last = " \thard clip\t \t\t \t\n";
    assert!(shown.ends_with(last));
}

#[test]
fn keys_are_pressed_and_released_in_turn() {
    let (mut desk, mut player) = pair();
    player.drain();
    let frames = [
        vec![Keycode::Q],
        vec![Keycode::Q, Keycode::Tab, Keycode::W],
        vec![Keycode::W, Keycode::W],
        vec![],
        vec![Keycode::Q, Keycode::F1],
    ];
    let sounding = [vec![true], vec![true, true], vec![false, true], vec![false; 2], vec![true, false]];
    for (keys, expected) in frames.iter().zip(&sounding) {
        let struck = desk.begin_frame(&Binary32, keys);
        desk.end_frame(keys.clone(), &struck);
        assert_eq!(player.drain(), Verdict::Obeyed);
        let pressed: Vec<bool> = player.playing_keys.iter().map(|n| n.1.is_pressed).collect();
        assert_eq!(&pressed, expected);
    }
}

#[test]
fn slider_is_idle_in_edit_mode_and_keeps_its_limit() {
    let (mut desk, mut player) = pair();
    strike(&mut desk, &[Keycode::Tab]);
    strike(&mut desk, &[Keycode::Enter]);
    assert!(!desk.slider_due(Some(u128::MAX)));
    strike(&mut desk, &[Keycode::Tab]);
    assert!(desk.slider_due(Some(51)));
    assert!(desk.move_slider(&Binary32, 1920, 0));
    assert_eq!(desk.gui.throttle_ms, 50);
    assert_eq!(player.drain(), Verdict::Obeyed);
    assert_eq!(f32::from_bits(player.effect_wetness[0]), 1.0);
    agree(&desk, &player);
}
