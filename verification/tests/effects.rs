use keyboard_synth::arithmetic::Arithmetic;
use keyboard_synth::effect::{delay, hard_clip, pan, Effect, EffectDefinition, BUFFER_SIZE};

struct Binary32;

impl Arithmetic for Binary32 {
    fn from_natural(&self, n: u64) -> u32 {
        (n as f32).to_bits()
    }
    fn from_integer(&self, n: i32) -> u32 {
        (n as f32).to_bits()
    }
    fn to_natural(&self, a: u32) -> usize {
        f32::from_bits(a) as usize
    }
    fn neg(&self, a: u32) -> u32 {
        (-f32::from_bits(a)).to_bits()
    }
    fn sin(&self, a: u32) -> u32 {
        f32::from_bits(a).sin().to_bits()
    }
    fn exp(&self, a: u32) -> u32 {
        f32::from_bits(a).exp().to_bits()
    }
    fn fract(&self, a: u32) -> u32 {
        f32::from_bits(a).fract().to_bits()
    }
    fn plus(&self, a: u32, b: u32) -> u32 {
        (f32::from_bits(a) + f32::from_bits(b)).to_bits()
    }
    fn minus(&self, a: u32, b: u32) -> u32 {
        (f32::from_bits(a) - f32::from_bits(b)).to_bits()
    }
    fn times(&self, a: u32, b: u32) -> u32 {
        (f32::from_bits(a) * f32::from_bits(b)).to_bits()
    }
    fn over(&self, a: u32, b: u32) -> u32 {
        (f32::from_bits(a) / f32::from_bits(b)).to_bits()
    }
    fn max(&self, a: u32, b: u32) -> u32 {
        f32::from_bits(a).max(f32::from_bits(b)).to_bits()
    }
    fn powf(&self, a: u32, b: u32) -> u32 {
        f32::from_bits(a).powf(f32::from_bits(b)).to_bits()
    }
    fn powi(&self, a: u32, n: i32) -> u32 {
        f32::from_bits(a).powi(n).to_bits()
    }
    fn clamp(&self, a: u32, low: u32, high: u32) -> u32 {
        f32::from_bits(a).clamp(f32::from_bits(low), f32::from_bits(high)).to_bits()
    }
    fn less(&self, a: u32, b: u32) -> bool {
        f32::from_bits(a) < f32::from_bits(b)
    }
}

const CHUNK: usize = 8;

fn words(numbers: [f32; CHUNK]) -> [u32; CHUNK] {
    let mut r = [0u32; CHUNK];
    for i in 0..CHUNK {
        r[i] = numbers[i].to_bits();
    }
    r
}

fn numbers(words: [u32; CHUNK]) -> [f32; CHUNK] {
    let mut r = [0.0f32; CHUNK];
    for i in 0..CHUNK {
        r[i] = f32::from_bits(words[i]);
    }
    r
}

#[test]
fn effect_defaults_are_set() {
    let data = EffectDefinition::Delay.init();
    assert_eq!(f32::from_bits(data.params[0]), 0.0);
    assert_eq!(f32::from_bits(data.params[1]), 0.25);
    assert_eq!(data.buffer_pointer, 0);
    assert!(data.buffer.iter().all(|w| *w == 0));
    let data = EffectDefinition::HardClip.init();
    assert_eq!(f32::from_bits(data.params[0]), 1.0 / 64.0);
    assert_eq!(f32::from_bits(data.params[1]), 1.0);
    let data = EffectDefinition::Pan.init();
    assert_eq!(f32::from_bits(data.params[0]), 0.5);
    assert_eq!(data.params[1], 0);
}

#[test]
fn effect_names_are_set() {
    assert_eq!(EffectDefinition::Delay.title(), "delay");
    assert_eq!(EffectDefinition::HardClip.title(), "hard clip");
    assert_eq!(EffectDefinition::Pan.title(), "panning");
    let names = EffectDefinition::Delay.param_names();
    assert_eq!((names[0], names[1], names[2]), ("volume", "time", ""));
    let names = EffectDefinition::HardClip.param_names();
    assert_eq!((names[0], names[1], names[2]), ("pregain", "postgain", ""));
    let names = EffectDefinition::Pan.param_names();
    assert_eq!((names[0], names[1]), ("pan", ""));
    assert_eq!(EffectDefinition::Delay.param_count(), 2);
    assert_eq!(EffectDefinition::HardClip.param_count(), 2);
    assert_eq!(EffectDefinition::Pan.param_count(), 1);
}

#[test]
fn delay_plays_back_one_loop_less_one_sample_later() {
    let mut params = EffectDefinition::Delay.init().params;
    params[0] = 0.5f32.to_bits();
    params[1] = 0.25f32.to_bits();
    // 0.25 s of 12 frames per second: a loop of 6 samples
    let mut buffer = [0u32; BUFFER_SIZE];
    let mut pointer = 0usize;
    let input = words([1.0, 0.0, 0.0, 0.0, 0.0, 0.0, 0.0, 0.0]);
    let out = delay(&Binary32, 12, params, &mut buffer, &mut pointer, &input);
    assert_eq!(numbers(out), [1.0, 0.0, 0.0, 0.0, 0.0, 0.5, 0.0, 0.0]);
    assert_eq!(pointer, 2);
    let out = delay(&Binary32, 12, params, &mut buffer, &mut pointer, &words([0.0; CHUNK]));
    assert_eq!(numbers(out), [0.0, 0.0, 0.25, 0.0, 0.0, 0.0, 0.0, 0.125]);
    assert_eq!(pointer, 4);
}

#[test]
fn delay_has_a_shortest_and_a_longest_loop() {
    let mut params = EffectDefinition::Delay.init().params;
    params[0] = 1.0f32.to_bits();
    params[1] = 0.0f32.to_bits();
    let mut buffer = [0u32; BUFFER_SIZE];
    let mut pointer = 0usize;
    let input = words([1.0, 0.0, 0.0, 0.0, 0.0, 0.0, 0.0, 0.0]);
    let out = delay(&Binary32, 48000, params, &mut buffer, &mut pointer, &input);
    assert_eq!(numbers(out), [1.0; CHUNK]);
    assert_eq!(pointer, 0);
    params[1] = f32::INFINITY.to_bits();
    pointer = BUFFER_SIZE - 2;
    let _ = delay(&Binary32, 48000, params, &mut buffer, &mut pointer, &input);
    assert_eq!(pointer, CHUNK - 2);
}

#[test]
fn delay_keeps_old_sound_behind_a_shorter_loop() {
    let mut params = EffectDefinition::Delay.init().params;
    params[0] = 1.0f32.to_bits();
    params[1] = 0.25f32.to_bits();
    let mut buffer = [0u32; BUFFER_SIZE];
    buffer[5] = 0.75f32.to_bits();
    let mut pointer = 0usize;
    // a loop of 4 samples never reaches place 5
    let _ = delay(&Binary32, 8, params, &mut buffer, &mut pointer, &words([0.0; CHUNK]));
    assert_eq!(f32::from_bits(buffer[5]), 0.75);
    assert_eq!(pointer, 0);
    // a loop of 6 samples does
    let out = delay(&Binary32, 12, params, &mut buffer, &mut pointer, &words([0.0; CHUNK]));
    assert_eq!(f32::from_bits(out[4]), 0.75);
}

#[test]
fn clip_cuts_off() {
    let mut params = EffectDefinition::HardClip.init().params;
    let input = words([0.5, -0.5, 2.0, -2.0, 1.0, 0.0, 0.25, -1.5]);
    let out = hard_clip(&Binary32, params, &input);
    assert_eq!(numbers(out), [0.5, -0.5, 1.0, -1.0, 1.0, 0.0, 0.25, -1.0]);
    params[0] = 1.0f32.to_bits();
    params[1] = 0.5f32.to_bits();
    let out = hard_clip(&Binary32, params, &input);
    assert_eq!(numbers(out), [0.5, -0.5, 0.5, -0.5, 0.5, 0.0, 0.5, -0.5]);
}

#[test]
fn pan_in_the_middle_changes_nothing() {
    let params = EffectDefinition::Pan.init().params;
    let input = words([1.0, -1.0, 0.5, 0.25, 0.0, 1.0, 0.75, -0.5]);
    let out = pan(&Binary32, params, &input);
    assert_eq!(numbers(out), numbers(input));
}

#[test]
fn pan_moves_to_the_sides() {
    let mut params = EffectDefinition::Pan.init().params;
    params[0] = 0.0f32.to_bits();
    let input = words([1.0, 0.5, 0.0, 1.0, 1.0, 0.0, 0.5, 0.5]);
    let out = pan(&Binary32, params, &input);
    assert_eq!(numbers(out), [0.75, 0.0, 0.5, 0.0, 0.5, 0.0, 0.5, 0.0]);
    params[0] = 1.0f32.to_bits();
    let out = pan(&Binary32, params, &input);
    assert_eq!(numbers(out), [0.0, 0.75, 0.0, 0.5, 0.0, 0.5, 0.0, 0.5]);
}

#[test]
fn pan_silences_a_sample_without_a_partner() {
    let params = EffectDefinition::Pan.init().params;
    let input = [1.0f32.to_bits(), 0.5f32.to_bits(), 0.25f32.to_bits()];
    let out = pan::<Binary32, 3>(&Binary32, params, &input);
    assert_eq!(out, [1.0f32.to_bits(), 0.5f32.to_bits(), 0]);
}

#[test]
fn effect_answers_by_its_definition() {
    let mut effect = Effect { definition: EffectDefinition::Pan, data: EffectDefinition::Pan.init() };
    effect.data.params[0] = 0.0f32.to_bits();
    let input = words([1.0, 0.5, 0.0, 1.0, 1.0, 0.0, 0.5, 0.5]);
    let out = effect.apply::<Binary32, CHUNK>(&Binary32, 48000, &input);
    assert_eq!(numbers(out), [0.75, 0.0, 0.5, 0.0, 0.5, 0.0, 0.5, 0.0]);
    effect.definition = EffectDefinition::HardClip;
    effect.data = EffectDefinition::HardClip.init();
    let out = effect.apply::<Binary32, CHUNK>(&Binary32, 48000, &input);
    assert_eq!(numbers(out), numbers(input));
}

#[test]
fn delay_does_not_notice_the_chunks() {
    let mut params = EffectDefinition::Delay.init().params;
    params[0] = 0.5f32.to_bits();
    params[1] = 0.25f32.to_bits();
    let mut long = [0u32; 16];
    for i in 0..16 {
        long[i] = (i as f32 / 16.0).to_bits();
    }
    let mut buffer = [0u32; BUFFER_SIZE];
    let mut pointer = 0usize;
    let whole = delay::<Binary32, 16>(&Binary32, 12, params, &mut buffer, &mut pointer, &long);
    let mut parts_buffer = [0u32; BUFFER_SIZE];
    let mut parts_pointer = 0usize;
    let mut parts: Vec<u32> = Vec::new();
    for part in 0..2 {
        let mut input = [0u32; CHUNK];
        input.copy_from_slice(&long[part * CHUNK..(part + 1) * CHUNK]);
        let out = delay(&Binary32, 12, params, &mut parts_buffer, &mut parts_pointer, &input);
        parts.extend_from_slice(&out);
    }
    assert_eq!(whole[..], parts[..]);
    assert!(buffer == parts_buffer);
    assert_eq!(pointer, parts_pointer);
}
