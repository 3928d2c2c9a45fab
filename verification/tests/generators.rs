use std::collections::hash_map::DefaultHasher;
use std::hash::{Hash, Hasher};

use keyboard_synth::arithmetic::Arithmetic;
use keyboard_synth::generator::GeneratorDefinition;

struct Binary32;

impl Arithmetic for Binary32 {
    fn from_natural(&self, n: u64) -> u32 {
        (n as f32).to_bits()
    }
    fn from_integer(&self, n: i32) -> u32 {
        (n as f32).to_bits()
    }
    fn to_natural(&self, a: u32) -> usize {
        f32::from_bits(a) as usize
    }
    fn neg(&self, a: u32) -> u32 {
        (-f32::from_bits(a)).to_bits()
    }
    fn sin(&self, a: u32) -> u32 {
        f32::from_bits(a).sin().to_bits()
    }
    fn exp(&self, a: u32) -> u32 {
        f32::from_bits(a).exp().to_bits()
    }
    fn fract(&self, a: u32) -> u32 {
        f32::from_bits(a).fract().to_bits()
    }
    fn plus(&self, a: u32, b: u32) -> u32 {
        (f32::from_bits(a) + f32::from_bits(b)).to_bits()
    }
    fn minus(&self, a: u32, b: u32) -> u32 {
        (f32::from_bits(a) - f32::from_bits(b)).to_bits()
    }
    fn times(&self, a: u32, b: u32) -> u32 {
        (f32::from_bits(a) * f32::from_bits(b)).to_bits()
    }
    fn over(&self, a: u32, b: u32) -> u32 {
        (f32::from_bits(a) / f32::from_bits(b)).to_bits()
    }
    fn max(&self, a: u32, b: u32) -> u32 {
        f32::from_bits(a).max(f32::from_bits(b)).to_bits()
    }
    fn powf(&self, a: u32, b: u32) -> u32 {
        f32::from_bits(a).powf(f32::from_bits(b)).to_bits()
    }
    fn powi(&self, a: u32, n: i32) -> u32 {
        f32::from_bits(a).powi(n).to_bits()
    }
    fn clamp(&self, a: u32, low: u32, high: u32) -> u32 {
        f32::from_bits(a).clamp(f32::from_bits(low), f32::from_bits(high)).to_bits()
    }
    fn less(&self, a: u32, b: u32) -> bool {
        f32::from_bits(a) < f32::from_bits(b)
    }
}

const CHUNK: usize = 16;

fn params_of(definition: GeneratorDefinition, pitch: f32) -> [u32; 64] {
    let mut params = definition.init().params;
    params[0] = pitch.to_bits();
    params
}

fn numbers(words: &[u32; CHUNK]) -> Vec<f32> {
    words.iter().map(|w| f32::from_bits(*w)).collect()
}

#[test]
fn generator_defaults_are_set() {
    let sine = GeneratorDefinition::SineOsc.init().params;
    assert_eq!(f32::from_bits(sine[0]), 440.0);
    assert_eq!(f32::from_bits(sine[1]), 0.5);
    assert_eq!(f32::from_bits(sine[2]), 0.6);
    assert_eq!(sine[3], 0);
    let saw = GeneratorDefinition::DetunedSaw.init().params;
    assert_eq!(f32::from_bits(saw[1]), 0.25);
    let noise = GeneratorDefinition::WhiteNoise.init().params;
    assert_eq!(f32::from_bits(noise[1]), 0.25);
    assert_eq!(f32::from_bits(noise[2]), 0.6);
}

#[test]
fn generator_names_are_set() {
    assert_eq!(GeneratorDefinition::SineOsc.title(), "sine osc");
    assert_eq!(GeneratorDefinition::DetunedSaw.title(), "detuned saw");
    assert_eq!(GeneratorDefinition::WhiteNoise.title(), "white noise");
    let names = GeneratorDefinition::SineOsc.param_names();
    assert_eq!(names[0], "pitch");
    assert_eq!(names[1], "volume");
    assert_eq!(names[2], "decay");
    assert_eq!(names[3], "");
    let names = GeneratorDefinition::WhiteNoise.param_names();
    assert_eq!(names[0], "N/A");
    assert_eq!(names[1], "volume");
    assert_eq!(names[2], "");
    assert_eq!(GeneratorDefinition::WhiteNoise.param_count(), 3);
}

#[test]
fn sine_follows_its_formula() {
    let params = params_of(GeneratorDefinition::SineOsc, 330.0);
    let rate = 48000u32;
    let chunk_index = 7u128;
    let (out, finished) = GeneratorDefinition::SineOsc.apply::<Binary32, CHUNK>(
        &Binary32, rate, params, chunk_index, true,
    );
    for i in 0..CHUNK {
        let ti = 7 * CHUNK + i;
        let t = ((ti / 2) as f32) / (rate as f32);
        let decay = 64.0 - 0.6f32 * 63.0;
        let mut val = (t * 330.0 * std::f32::consts::TAU).sin();
        val *= f32::exp(-t.fract() * decay) * 0.5;
        assert_eq!(out[i], val.to_bits());
    }
    assert!(!finished);
    assert!(numbers(&out)[2] != 0.0);
}

#[test]
fn sine_is_silent_when_released() {
    let params = params_of(GeneratorDefinition::SineOsc, 440.0);
    let (out, finished) = GeneratorDefinition::SineOsc.apply::<Binary32, CHUNK>(
        &Binary32, 160, params, 10, false,
    );
    assert_eq!(out, [0u32; CHUNK]);
    assert!(!finished);
    let (_, finished) = GeneratorDefinition::SineOsc.apply::<Binary32, CHUNK>(
        &Binary32, 160, params, 11, false,
    );
    assert!(finished);
}

#[test]
fn saw_follows_its_formula() {
    let params = params_of(GeneratorDefinition::DetunedSaw, 220.0);
    let rate = 44100u32;
    for pressed in [true, false] {
        let (out, finished) = GeneratorDefinition::DetunedSaw.apply::<Binary32, CHUNK>(
            &Binary32, rate, params, 40, pressed,
        );
        for i in 0..CHUNK {
            let is_left = i % 2 == 0;
            let ti = 40 * CHUNK + i;
            let t = ((ti / 2) as f32) / (rate as f32);
            let decay = 64.0 - 0.6f32 * 63.0;
            let fm = (t * (if is_left { 30.0 } else { 40.0 })).sin();
            let mut val = (t * 220.0 + fm * 0.3).fract() * 2.0 - 1.0;
            val *= 0.25;
            val *= if pressed { 1.0 } else { f32::exp(-t.fract() * decay) };
            assert_eq!(out[i], val.to_bits());
        }
        assert!(!finished);
    }
}

#[test]
fn saw_finishes_only_when_released() {
    let params = params_of(GeneratorDefinition::DetunedSaw, 220.0);
    let (_, finished) = GeneratorDefinition::DetunedSaw.apply::<Binary32, CHUNK>(
        &Binary32, 160, params, 11, true,
    );
    assert!(!finished);
    let (_, finished) = GeneratorDefinition::DetunedSaw.apply::<Binary32, CHUNK>(
        &Binary32, 160, params, 11, false,
    );
    assert!(finished);
}

#[test]
fn noise_is_the_scaled_hash() {
    let params = params_of(GeneratorDefinition::WhiteNoise, 440.0);
    let chunk_index = 123456789012345678901234567890u128;
    let (out, finished) = GeneratorDefinition::WhiteNoise.apply::<Binary32, CHUNK>(
        &Binary32, 48000, params, chunk_index, true,
    );
    let mut hasher = DefaultHasher::new();
    chunk_index.hash(&mut hasher);
    for i in 0..CHUNK {
        let is_left = i % 2 == 0;
        i.hash(&mut hasher);
        is_left.hash(&mut hasher);
        let mut val = (hasher.finish() as f32) / (u64::MAX as f32) * 2.0 - 1.0;
        val *= 0.25;
        assert_eq!(out[i], val.to_bits());
    }
    assert!(!finished);
}

#[test]
fn noise_stops_at_once() {
    let params = params_of(GeneratorDefinition::WhiteNoise, 440.0);
    let (out, finished) = GeneratorDefinition::WhiteNoise.apply::<Binary32, CHUNK>(
        &Binary32, 48000, params, 0, false,
    );
    assert_eq!(out, [0u32; CHUNK]);
    assert!(finished);
}
