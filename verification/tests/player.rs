use keyboard_synth::arithmetic::Arithmetic;
use keyboard_synth::command::{offer, AudioCommand};
use keyboard_synth::effect::EffectDefinition;
use keyboard_synth::generator::GeneratorDefinition;
use keyboard_synth::keys::Keycode;
use keyboard_synth::player::{Instrument, Player, Verdict, RING_SIZE};
use keyboard_synth::region::BUFFER_REGION_SIZE;
use keyboard_synth::render::Outcome;

struct Binary32;

impl Arithmetic for Binary32 {
    fn from_natural(&self, n: u64) -> u32 {
        (n as f32).to_bits()
    }
    fn from_integer(&self, n: i32) -> u32 {
        (n as f32).to_bits()
    }
    fn to_natural(&self, a: u32) -> usize {
        f32::from_bits(a) as usize
    }
    fn neg(&self, a: u32) -> u32 {
        (-f32::from_bits(a)).to_bits()
    }
    fn sin(&self, a: u32) -> u32 {
        f32::from_bits(a).sin().to_bits()
    }
    fn exp(&self, a: u32) -> u32 {
        f32::from_bits(a).exp().to_bits()
    }
    fn fract(&self, a: u32) -> u32 {
        f32::from_bits(a).fract().to_bits()
    }
    fn plus(&self, a: u32, b: u32) -> u32 {
        (f32::from_bits(a) + f32::from_bits(b)).to_bits()
    }
    fn minus(&self, a: u32, b: u32) -> u32 {
        (f32::from_bits(a) - f32::from_bits(b)).to_bits()
    }
    fn times(&self, a: u32, b: u32) -> u32 {
        (f32::from_bits(a) * f32::from_bits(b)).to_bits()
    }
    fn over(&self, a: u32, b: u32) -> u32 {
        (f32::from_bits(a) / f32::from_bits(b)).to_bits()
    }
    fn max(&self, a: u32, b: u32) -> u32 {
        f32::from_bits(a).max(f32::from_bits(b)).to_bits()
    }
    fn powf(&self, a: u32, b: u32) -> u32 {
        f32::from_bits(a).powf(f32::from_bits(b)).to_bits()
    }
    fn powi(&self, a: u32, n: i32) -> u32 {
        f32::from_bits(a).powi(n).to_bits()
    }
    fn clamp(&self, a: u32, low: u32, high: u32) -> u32 {
        f32::from_bits(a).clamp(f32::from_bits(low), f32::from_bits(high)).to_bits()
    }
    fn less(&self, a: u32, b: u32) -> bool {
        f32::from_bits(a) < f32::from_bits(b)
    }
}

const CHUNK: usize = 16;
const RATE: u32 = 64;

fn loud_player() -> Player<CHUNK> {
    let mut player = Instrument::<CHUNK>::new().player;
    for definition in [GeneratorDefinition::SineOsc, GeneratorDefinition::DetunedSaw] {
        assert_eq!(player.obey(AudioCommand::NewGenerator(definition)), Verdict::Obeyed);
    }
    player
}

/// Renders one held sine as numbers, chunk by chunk, in the obvious way. The
/// arguments are kept from the optimiser, which rounds sines otherwise than the
/// machine does.
fn reference_sine(pitch: f32, chunk: usize) -> Vec<f32> {
    let (pitch, chunk) = std::hint::black_box((pitch, chunk));
    (0..CHUNK)
        .map(|i| {
            let t = (((chunk * CHUNK + i) / 2) as f32) / (RATE as f32);
            let decay = 64.0 - 0.6f32 * 63.0;
            (t * pitch * std::f32::consts::TAU).sin() * (f32::exp(-t.fract() * decay) * 0.5)
        })
        .collect()
}

fn reference_region(chunks: &[Vec<f32>]) -> [f32; BUFFER_REGION_SIZE] {
    let mut region = [0.0f32; BUFFER_REGION_SIZE];
    let mut pointer = 0;
    for chunk in chunks {
        let start = (pointer + BUFFER_REGION_SIZE - 4) % BUFFER_REGION_SIZE;
        for number in chunk {
            region[pointer] = number.clamp(-1.0, 1.0);
            pointer = (pointer + 1) % BUFFER_REGION_SIZE;
        }
        let coeff_b = (-1.0 / (0.023 * (RATE as f32)).max(f32::MIN)).exp();
        let held = region[start + 1];
        for k in 1..4 {
            let left = (start + 2 * k) % BUFFER_REGION_SIZE;
            let right = (start + 2 * k + 1) % BUFFER_REGION_SIZE;
            region[left] = held * (1.0 - coeff_b) + region[right] * coeff_b;
            region[right] = held;
        }
    }
    region
}

fn same_numbers(region: &[u32; BUFFER_REGION_SIZE], numbers: &[f32; BUFFER_REGION_SIZE]) {
    for i in 0..BUFFER_REGION_SIZE {
        assert_eq!((i, f32::from_bits(region[i])), (i, numbers[i]));
    }
}

#[test]
fn new_instrument_is_silent() {
    let mut player = Instrument::<CHUNK>::new().player;
    assert!(player.playing_keys.is_empty());
    assert!(player.generators.is_empty());
    assert!(player.effect_stack.is_empty());
    assert_eq!(player.buffer_region_pointer, 0);
    let mut data = [7u32; 32];
    assert!(player.can_fill(RATE, 32));
    assert_eq!(player.process(&Binary32, &mut data, 2, RATE), Outcome::Rendered);
    assert_eq!(data, [0u32; 32]);
    assert_eq!(player.buffer_region_pointer, 32);
}

#[test]
fn press_starts_a_note() {
    let mut player = loud_player();
    let pitch = 330.0f32.to_bits();
    assert_eq!(player.obey(AudioCommand::Press(1, Keycode::A, pitch)), Verdict::Obeyed);
    assert_eq!(player.playing_keys.len(), 1);
    let (key, note) = player.playing_keys[0];
    assert_eq!(key, Keycode::A);
    assert_eq!(note.instrument, 1);
    assert!(note.is_pressed);
    assert_eq!(note.pitch, pitch);
    assert_eq!(note.current_chunk, 0);
}

#[test]
fn press_again_keeps_the_pitch() {
    let mut player = loud_player();
    player.obey(AudioCommand::Press(1, Keycode::A, 330.0f32.to_bits()));
    player.play_chunk(&Binary32, RATE, CHUNK);
    assert_eq!(player.playing_keys[0].1.current_chunk, 1);
    player.obey(AudioCommand::Press(0, Keycode::A, 550.0f32.to_bits()));
    assert_eq!(player.playing_keys.len(), 1);
    let note = player.playing_keys[0].1;
    assert_eq!(note.instrument, 0);
    assert_eq!(f32::from_bits(note.pitch), 330.0);
    assert_eq!(note.current_chunk, 0);
}

#[test]
fn press_of_a_missing_generator_is_refused() {
    let mut player = loud_player();
    assert_eq!(player.obey(AudioCommand::Press(2, Keycode::A, 0)), Verdict::Refused);
    assert!(player.playing_keys.is_empty());
}

#[test]
fn release_restarts_the_count() {
    let mut player = loud_player();
    player.obey(AudioCommand::Press(0, Keycode::A, 0));
    player.obey(AudioCommand::Press(1, Keycode::S, 0));
    player.play_chunk(&Binary32, RATE, CHUNK);
    assert_eq!(player.obey(AudioCommand::Release(Keycode::A)), Verdict::Obeyed);
    let note = player.playing_keys[0].1;
    assert!(!note.is_pressed);
    assert_eq!(note.current_chunk, 0);
    let other = player.playing_keys[1].1;
    assert!(other.is_pressed);
    assert_eq!(other.current_chunk, 1);
    assert_eq!(player.obey(AudioCommand::Release(Keycode::Z)), Verdict::Obeyed);
    assert_eq!(player.playing_keys.len(), 2);
}

#[test]
fn released_note_ends_after_a_second_of_samples() {
    let mut player = loud_player();
    player.obey(AudioCommand::Press(1, Keycode::A, 0));
    player.obey(AudioCommand::Press(0, Keycode::S, 0));
    player.obey(AudioCommand::Release(Keycode::A));
    // four chunks are exactly a second of samples, which is not yet enough
    for _ in 0..5 {
        assert_eq!(player.playing_keys.len(), 2);
        player.play_chunk(&Binary32, RATE, CHUNK);
    }
    assert_eq!(player.playing_keys.len(), 2);
    player.play_chunk(&Binary32, RATE, CHUNK);
    assert_eq!(player.playing_keys.len(), 1);
    assert_eq!(player.playing_keys[0].0, Keycode::S);
    assert_eq!(player.playing_keys[0].1.current_chunk, 6);
}

#[test]
fn effects_come_and_go() {
    let mut player = loud_player();
    for definition in [EffectDefinition::Delay, EffectDefinition::Pan, EffectDefinition::HardClip] {
        assert_eq!(player.obey(AudioCommand::NewEffect(definition)), Verdict::Obeyed);
    }
    assert_eq!(player.effect_wetness, vec![1.0f32.to_bits(); 3]);
    assert_eq!(player.obey(AudioCommand::SetParam(2, 0, 0.5f32.to_bits())), Verdict::Obeyed);
    assert_eq!(player.obey(AudioCommand::DelEffect(1)), Verdict::Obeyed);
    assert_eq!(player.effect_stack.len(), 2);
    assert_eq!(player.effect_stack[0].definition, EffectDefinition::Delay);
    assert_eq!(player.effect_stack[1].definition, EffectDefinition::HardClip);
    assert_eq!(player.effect_wetness, vec![1.0f32.to_bits(), 0.5f32.to_bits()]);
}

#[test]
fn missing_effect_cannot_go() {
    let mut player = loud_player();
    assert_eq!(player.obey(AudioCommand::DelEffect(0)), Verdict::MissingEffect);
    player.obey(AudioCommand::NewEffect(EffectDefinition::Pan));
    assert_eq!(player.obey(AudioCommand::DelEffect(1)), Verdict::MissingEffect);
    assert_eq!(player.effect_stack.len(), 1);
}

#[test]
fn adding_and_removing_leaves_the_stack_as_it_was() {
    let mut player = loud_player();
    player.obey(AudioCommand::NewEffect(EffectDefinition::Pan));
    player.obey(AudioCommand::SetParam(0, 0, 0.25f32.to_bits()));
    player.obey(AudioCommand::NewEffect(EffectDefinition::Delay));
    player.obey(AudioCommand::DelEffect(1));
    assert_eq!(player.effect_stack.len(), 1);
    assert_eq!(player.effect_stack[0].definition, EffectDefinition::Pan);
    assert_eq!(player.effect_wetness, vec![0.25f32.to_bits()]);
}

#[test]
fn values_are_set_one_place_below() {
    let mut player = loud_player();
    player.obey(AudioCommand::NewEffect(EffectDefinition::Delay));
    assert_eq!(player.obey(AudioCommand::SetParam(0, 1, 11)), Verdict::Obeyed);
    assert_eq!(player.obey(AudioCommand::SetParam(0, 64, 12)), Verdict::Obeyed);
    assert_eq!(player.effect_stack[0].data.params[0], 11);
    assert_eq!(player.effect_stack[0].data.params[63], 12);
    assert_eq!(player.effect_wetness[0], 1.0f32.to_bits());
    assert_eq!(player.obey(AudioCommand::SetParam(0, 65, 13)), Verdict::Refused);
    assert_eq!(player.obey(AudioCommand::SetParam(1, 0, 13)), Verdict::Refused);
    assert_eq!(player.effect_wetness[0], 1.0f32.to_bits());
}

#[test]
fn commands_arrive_in_order() {
    let instrument = Instrument::<CHUNK>::new();
    let mut producer = instrument.producer;
    let mut player = instrument.player;
    offer(&mut producer, AudioCommand::NewGenerator(GeneratorDefinition::WhiteNoise));
    offer(&mut producer, AudioCommand::NewGenerator(GeneratorDefinition::SineOsc));
    offer(&mut producer, AudioCommand::Press(1, Keycode::Q, 5));
    offer(&mut producer, AudioCommand::Release(Keycode::Q));
    offer(&mut producer, AudioCommand::Press(1, Keycode::W, 6));
    assert_eq!(player.drain(), Verdict::Obeyed);
    assert_eq!(player.generators[0].definition, GeneratorDefinition::WhiteNoise);
    assert_eq!(player.generators[1].definition, GeneratorDefinition::SineOsc);
    assert_eq!(player.playing_keys.len(), 2);
    assert_eq!(player.playing_keys[0].0, Keycode::Q);
    assert!(!player.playing_keys[0].1.is_pressed);
    assert!(player.playing_keys[1].1.is_pressed);
    assert_eq!(player.drain(), Verdict::Obeyed);
    assert_eq!(player.generators.len(), 2);
}

#[test]
fn full_ring_loses_what_comes_next() {
    let instrument = Instrument::<CHUNK>::new();
    let mut producer = instrument.producer;
    let mut player = instrument.player;
    for _ in 0..RING_SIZE {
        offer(&mut producer, AudioCommand::NewGenerator(GeneratorDefinition::SineOsc));
    }
    offer(&mut producer, AudioCommand::NewGenerator(GeneratorDefinition::WhiteNoise));
    assert_eq!(player.drain(), Verdict::Obeyed);
    assert_eq!(player.generators.len(), 64);
    assert_eq!(player.generators[63].definition, GeneratorDefinition::SineOsc);
    offer(&mut producer, AudioCommand::NewGenerator(GeneratorDefinition::WhiteNoise));
    assert_eq!(player.drain(), Verdict::Obeyed);
    assert_eq!(player.generators[64].definition, GeneratorDefinition::WhiteNoise);
}

#[test]
fn refused_command_ends_the_call_and_is_used_up() {
    let instrument = Instrument::<CHUNK>::new();
    let mut producer = instrument.producer;
    let mut player = instrument.player;
    offer(&mut producer, AudioCommand::Press(0, Keycode::Q, 5));
    offer(&mut producer, AudioCommand::NewGenerator(GeneratorDefinition::SineOsc));
    let mut data = [7u32; 32];
    let outcome = player.process(&Binary32, &mut data, 2, RATE);
    assert_eq!(outcome, Outcome::Stopped(Verdict::Refused));
    assert_eq!(data, [7u32; 32]);
    assert_eq!(player.buffer_region_pointer, 0);
    assert!(player.generators.is_empty());
    assert_eq!(player.process(&Binary32, &mut data, 2, RATE), Outcome::Rendered);
    assert_eq!(player.generators.len(), 1);
    assert!(player.playing_keys.is_empty());
    assert_eq!(data, [0u32; 32]);
}

#[test]
fn missing_effect_ends_the_call() {
    let instrument = Instrument::<CHUNK>::new();
    let mut producer = instrument.producer;
    let mut player = instrument.player;
    offer(&mut producer, AudioCommand::DelEffect(0));
    let mut data = [7u32; 32];
    let outcome = player.process(&Binary32, &mut data, 2, RATE);
    assert_eq!(outcome, Outcome::Stopped(Verdict::MissingEffect));
    assert_eq!(data, [7u32; 32]);
}

#[test]
fn rendering_follows_the_formulas() {
    let mut player = loud_player();
    player.obey(AudioCommand::Press(0, Keycode::A, 5.0f32.to_bits()));
    let mut data = [0u32; 40];
    assert!(player.can_fill(RATE, 40));
    assert_eq!(player.process(&Binary32, &mut data, 2, RATE), Outcome::Rendered);
    // the third chunk is cut short at half its length
    let mut chunks = vec![reference_sine(5.0, 0), reference_sine(5.0, 1), reference_sine(5.0, 2)];
    chunks[2].truncate(8);
    let region = reference_region(&chunks);
    same_numbers(&player.buffer_region, &region);
    assert!(region[20] != 0.0);
    assert_eq!(player.buffer_region_pointer, 40);
    // what is streamed lies behind what was written
    assert_eq!(data, [0u32; 40]);
    // the rest of the short chunk sounds with the next one
    assert_eq!(player.playing_samples.len(), 1);
    assert_eq!(player.playing_samples[0].position, 8);
    player.play_chunk(&Binary32, RATE, CHUNK);
    let late = reference_sine(5.0, 2);
    let mut next = reference_sine(5.0, 3);
    for i in 0..8 {
        next[i] = late[8 + i] + next[i];
    }
    chunks.push(next);
    same_numbers(&player.buffer_region, &reference_region(&chunks));
}

#[test]
fn stream_is_half_a_region_late() {
    let mut player = loud_player();
    player.obey(AudioCommand::Press(0, Keycode::A, 5.0f32.to_bits()));
    let mut data = [0u32; 1024];
    assert!(player.can_fill(RATE, 1024));
    player.process(&Binary32, &mut data, 2, RATE);
    assert_eq!(data, [0u32; 1024]);
    let first = player.buffer_region;
    assert!(player.can_fill(RATE, 1024));
    player.process(&Binary32, &mut data, 2, RATE);
    assert_eq!(player.buffer_region_pointer, 0);
    // but for the frame that the smoothing of the next seam reaches
    assert_eq!(data[..1022], first[..1022]);
    assert!(data.iter().any(|w| f32::from_bits(*w) != 0.0));
}

#[test]
fn effects_run_in_order_and_are_blended() {
    let mut player = loud_player();
    player.obey(AudioCommand::Press(0, Keycode::A, 5.0f32.to_bits()));
    player.obey(AudioCommand::NewEffect(EffectDefinition::HardClip));
    player.obey(AudioCommand::SetParam(0, 1, 1.0f32.to_bits()));
    player.obey(AudioCommand::SetParam(0, 0, 0.25f32.to_bits()));
    player.obey(AudioCommand::NewEffect(EffectDefinition::Pan));
    player.obey(AudioCommand::SetParam(1, 1, 0.0f32.to_bits()));
    player.play_chunk(&Binary32, RATE, CHUNK);
    let mut signal = reference_sine(5.0, 0);
    for number in signal.iter_mut() {
        let wet = (*number * 1.0 * 64.0).clamp(-1.0, 1.0) * 1.0;
        *number = *number * (1.0 - 0.25) + wet * 0.25;
    }
    for i in 0..CHUNK / 2 {
        let (l, r) = (signal[2 * i], signal[2 * i + 1]);
        let left = l * 0.5 + r * 0.5;
        let right = l * 0.0 + r * 0.0;
        signal[2 * i] = l * (1.0 - 1.0) + left * 1.0;
        signal[2 * i + 1] = r * (1.0 - 1.0) + right * 1.0;
    }
    let region = reference_region(&[signal]);
    for i in 0..CHUNK {
        assert_eq!(f32::from_bits(player.buffer_region[i]), region[i]);
    }
}

#[test]
fn two_notes_share_a_generator() {
    let mut player = loud_player();
    player.obey(AudioCommand::Press(0, Keycode::A, 5.0f32.to_bits()));
    player.obey(AudioCommand::Press(0, Keycode::S, 7.0f32.to_bits()));
    player.play_chunk(&Binary32, RATE, CHUNK);
    let (a, b) = (reference_sine(5.0, 0), reference_sine(7.0, 0));
    let sum: Vec<f32> = (0..CHUNK).map(|i| 0.0 + a[i] + b[i]).collect();
    same_numbers(&player.buffer_region, &reference_region(&[sum]));
    assert_eq!(f32::from_bits(player.generators[0].data.params[0]), 7.0);
}

#[test]
fn requests_that_leave_the_region_cannot_be_filled() {
    let mut player = loud_player();
    assert!(player.can_fill(RATE, 0));
    assert!(player.can_fill(RATE, 2048));
    assert!(!player.can_fill(RATE, 2049));
    assert!(!player.can_fill(RATE, 1500));
    player.buffer_region_pointer = 512;
    assert!(player.can_fill(RATE, 512));
    assert!(!player.can_fill(RATE, 1024));
    // the seam would begin on the last sample of the region
    player.buffer_region_pointer = 3;
    assert!(!player.can_fill(RATE, 16));
    assert!(player.can_fill(RATE, 0));
    let mut player = Instrument::<0>::new().player;
    assert!(!player.can_fill(RATE, 16));
    player.buffer_region_pointer = 2;
    assert!(!player.can_fill(RATE, 0));
}

#[test]
fn notes_that_played_too_long_cannot_be_rendered() {
    let mut player = loud_player();
    player.obey(AudioCommand::Press(0, Keycode::A, 0));
    assert!(player.can_fill(RATE, 32));
    player.playing_keys[0].1.current_chunk = u128::MAX;
    assert!(!player.can_fill(RATE, 32));
    // the last sample of the second chunk is the last that can be counted
    let last = usize::MAX / CHUNK - 1;
    player.playing_keys[0].1.current_chunk = last as u128;
    assert!(player.can_fill(RATE, 32));
    assert!(!player.can_fill(RATE, 33));
    player.playing_keys[0].1.current_chunk = last as u128 + 1;
    assert!(player.can_fill(RATE, 16));
    assert!(!player.can_fill(RATE, 32));
    // behind that the count starts anew
    player.playing_keys[0].1.current_chunk = usize::MAX as u128 + 1;
    assert!(player.can_fill(RATE, 32));
    // a released sine is silent and gone after a chunk: its samples do not count
    player.playing_keys[0].1.current_chunk = last as u128 + 2;
    assert!(!player.can_fill(RATE, 16));
    player.playing_keys[0].1.is_pressed = false;
    assert!(player.can_fill(RATE, 16));
    assert!(player.can_fill(RATE, 512));
    // the noise counts its chunks only
    player.obey(AudioCommand::NewGenerator(GeneratorDefinition::WhiteNoise));
    player.playing_keys[0].1.instrument = 2;
    player.playing_keys[0].1.is_pressed = true;
    player.playing_keys[0].1.current_chunk = u128::MAX - 2;
    assert!(player.can_fill(RATE, 32));
    player.playing_keys[0].1.current_chunk = u128::MAX - 1;
    assert!(player.can_fill(RATE, 16));
    assert!(!player.can_fill(RATE, 32));
}

#[test]
fn last_countable_chunk_is_rendered() {
    let mut player = Instrument::<1>::new().player;
    player.obey(AudioCommand::NewGenerator(GeneratorDefinition::SineOsc));
    player.obey(AudioCommand::Press(0, Keycode::A, 5.0f32.to_bits()));
    player.playing_keys[0].1.current_chunk = usize::MAX as u128 - 1;
    let mut data = [7u32; 1];
    assert!(player.can_fill(RATE, 1));
    assert_eq!(player.process(&Binary32, &mut data, 2, RATE), Outcome::Rendered);
    assert_eq!(data, [0u32; 1]);
    assert_eq!(player.playing_keys[0].1.current_chunk, usize::MAX as u128);
}

#[test]
fn overrun_obeys_but_renders_nothing() {
    let instrument = Instrument::<CHUNK>::new();
    let mut producer = instrument.producer;
    let mut player = instrument.player;
    offer(&mut producer, AudioCommand::NewGenerator(GeneratorDefinition::SineOsc));
    let mut data = [7u32; 1500];
    assert_eq!(player.process(&Binary32, &mut data, 2, RATE), Outcome::Overrun);
    assert_eq!(data, [7u32; 1500]);
    assert_eq!(player.generators.len(), 1);
    assert_eq!(player.buffer_region_pointer, 0);
    // a command that is not obeyed comes first
    offer(&mut producer, AudioCommand::DelEffect(0));
    let outcome = player.process(&Binary32, &mut data, 2, RATE);
    assert_eq!(outcome, Outcome::Stopped(Verdict::MissingEffect));
}

#[test]
fn commands_may_come_in_one_call_or_in_several() {
    let commands = [
        AudioCommand::NewGenerator(GeneratorDefinition::SineOsc),
        AudioCommand::Press(0, Keycode::Q, 5),
        AudioCommand::NewEffect(EffectDefinition::Pan),
        AudioCommand::Release(Keycode::Q),
        AudioCommand::SetParam(0, 1, 9),
    ];
    let together = Instrument::<CHUNK>::new();
    let mut producer = together.producer;
    let mut once = together.player;
    for command in commands {
        offer(&mut producer, command);
    }
    assert_eq!(once.drain(), Verdict::Obeyed);
    let apart = Instrument::<CHUNK>::new();
    let mut producer = apart.producer;
    let mut often = apart.player;
    for command in commands {
        offer(&mut producer, command);
        assert_eq!(often.drain(), Verdict::Obeyed);
    }
    assert_eq!(once.generators.len(), often.generators.len());
    assert_eq!(once.effect_wetness, often.effect_wetness);
    assert_eq!(once.effect_stack[0].data.params, often.effect_stack[0].data.params);
    assert_eq!(once.effect_stack[0].data.params[0], 9);
    assert_eq!(once.playing_keys.len(), 1);
    assert_eq!(often.playing_keys.len(), 1);
    assert_eq!(once.playing_keys[0].1.is_pressed, often.playing_keys[0].1.is_pressed);
}

#[test]
fn press_and_release_leave_a_dying_note() {
    let mut player = loud_player();
    player.obey(AudioCommand::Press(0, Keycode::S, 4));
    player.obey(AudioCommand::Press(1, Keycode::A, 5));
    player.obey(AudioCommand::Release(Keycode::A));
    assert_eq!(player.playing_keys.len(), 2);
    let (other, held) = player.playing_keys[0];
    assert_eq!((other, held.instrument, held.is_pressed, held.pitch), (Keycode::S, 0, true, 4));
    let (key, note) = player.playing_keys[1];
    assert_eq!((key, note.instrument, note.is_pressed, note.pitch), (Keycode::A, 1, false, 5));
    assert_eq!(note.current_chunk, 0);
}

#[test]
fn commands_leave_room_to_render() {
    let mut player = loud_player();
    player.obey(AudioCommand::Press(0, Keycode::A, 0));
    let last = ((usize::MAX - 48) / CHUNK) as u128;
    player.playing_keys[0].1.current_chunk = last;
    assert!(player.can_fill(RATE, 32));
    player.obey(AudioCommand::Press(1, Keycode::S, 0));
    player.obey(AudioCommand::NewEffect(EffectDefinition::Delay));
    assert!(player.can_fill(RATE, 32));
    player.obey(AudioCommand::Release(Keycode::A));
    assert_eq!(player.playing_keys[0].1.current_chunk, 0);
    assert!(player.can_fill(RATE, 32));
}

#[test]
fn even_requests_always_fit() {
    for len in [2usize, 16, 64, 256, 512, 1024, 2048] {
        let mut player = loud_player();
        player.obey(AudioCommand::Press(0, Keycode::A, 5.0f32.to_bits()));
        let mut data = vec![0u32; len];
        for _ in 0..9 {
            assert!(player.can_fill(RATE, len));
            let outcome = player.process(&Binary32, &mut data, 2, RATE);
            assert_eq!(outcome, Outcome::Rendered);
        }
    }
}

#[test]
fn rendering_leaves_the_rest_of_the_region_alone() {
    let mut player = loud_player();
    for i in 0..BUFFER_REGION_SIZE {
        player.buffer_region[i] = ((i % 50) as f32 / 64.0).to_bits();
    }
    player.buffer_region_pointer = 100;
    let before = player.buffer_region;
    let mut data = [0u32; 40];
    assert_eq!(player.process(&Binary32, &mut data, 2, RATE), Outcome::Rendered);
    assert_eq!(player.buffer_region[..98], before[..98]);
    assert_eq!(player.buffer_region[140..], before[140..]);
    assert_ne!(player.buffer_region[98..140], before[98..140]);
    assert_eq!(data[..], before[140..180]);
}

#[test]
fn released_notes_last_as_long_as_their_generator() {
    let mut player = loud_player();
    player.obey(AudioCommand::NewGenerator(GeneratorDefinition::WhiteNoise));
    player.obey(AudioCommand::Press(0, Keycode::A, 5.0f32.to_bits()));
    player.obey(AudioCommand::Press(2, Keycode::S, 5.0f32.to_bits()));
    player.play_chunk(&Binary32, RATE, CHUNK);
    player.obey(AudioCommand::Release(Keycode::A));
    player.obey(AudioCommand::Release(Keycode::S));
    assert_eq!(player.playing_keys.len(), 2);
    // a second is four chunks; the sine is there for one more, the noise is not
    for chunk in 1..8 {
        player.play_chunk(&Binary32, RATE, CHUNK);
        player.obey(AudioCommand::NewEffect(EffectDefinition::Pan));
        player.obey(AudioCommand::Release(Keycode::Z));
        let sine = player.playing_keys.iter().any(|n| n.0 == Keycode::A);
        assert_eq!(sine, chunk <= 5);
        assert!(player.playing_keys.iter().all(|n| n.0 != Keycode::S));
    }
}

#[test]
fn samples_stay_in_range() {
    let mut player = loud_player();
    let keys = [Keycode::A, Keycode::S, Keycode::D, Keycode::F, Keycode::G, Keycode::H];
    for key in keys {
        player.obey(AudioCommand::Press(1, key, 9.0f32.to_bits()));
    }
    player.obey(AudioCommand::NewEffect(EffectDefinition::Delay));
    player.obey(AudioCommand::SetParam(0, 1, 4.0f32.to_bits()));
    let mut data = [0u32; 1024];
    for _ in 0..4 {
        assert_eq!(player.process(&Binary32, &mut data, 2, RATE), Outcome::Rendered);
        assert!(data.iter().all(|w| f32::from_bits(*w).abs() <= 1.0));
    }
    assert!(data.iter().any(|w| f32::from_bits(*w).abs() == 1.0));
}

#[test]
fn call_reads_the_ring_until_it_is_empty() {
    let instrument = Instrument::<CHUNK>::new();
    let mut producer = instrument.producer;
    let mut player = instrument.player;
    let mut data = [0u32; 32];
    for round in 1..4 {
        for _ in 0..20 {
            offer(&mut producer, AudioCommand::NewGenerator(GeneratorDefinition::SineOsc));
        }
        assert_eq!(player.process(&Binary32, &mut data, 2, RATE), Outcome::Rendered);
        assert_eq!(player.generators.len(), 20 * round);
    }
    assert_eq!(player.drain(), Verdict::Obeyed);
    assert_eq!(player.generators.len(), 60);
}
