use keyboard_synth::arithmetic::Arithmetic;
use keyboard_synth::mixing::{mix, AudioSample};
use keyboard_synth::region::{declick, write_region, BUFFER_REGION_SIZE};

struct Binary32;

impl Arithmetic for Binary32 {
    fn from_natural(&self, n: u64) -> u32 {
        (n as f32).to_bits()
    }
    fn from_integer(&self, n: i32) -> u32 {
        (n as f32).to_bits()
    }
    fn to_natural(&self, a: u32) -> usize {
        f32::from_bits(a) as usize
    }
    fn neg(&self, a: u32) -> u32 {
        (-f32::from_bits(a)).to_bits()
    }
    fn sin(&self, a: u32) -> u32 {
        f32::from_bits(a).sin().to_bits()
    }
    fn exp(&self, a: u32) -> u32 {
        f32::from_bits(a).exp().to_bits()
    }
    fn fract(&self, a: u32) -> u32 {
        f32::from_bits(a).fract().to_bits()
    }
    fn plus(&self, a: u32, b: u32) -> u32 {
        (f32::from_bits(a) + f32::from_bits(b)).to_bits()
    }
    fn minus(&self, a: u32, b: u32) -> u32 {
        (f32::from_bits(a) - f32::from_bits(b)).to_bits()
    }
    fn times(&self, a: u32, b: u32) -> u32 {
        (f32::from_bits(a) * f32::from_bits(b)).to_bits()
    }
    fn over(&self, a: u32, b: u32) -> u32 {
        (f32::from_bits(a) / f32::from_bits(b)).to_bits()
    }
    fn max(&self, a: u32, b: u32) -> u32 {
        f32::from_bits(a).max(f32::from_bits(b)).to_bits()
    }
    fn powf(&self, a: u32, b: u32) -> u32 {
        f32::from_bits(a).powf(f32::from_bits(b)).to_bits()
    }
    fn powi(&self, a: u32, n: i32) -> u32 {
        f32::from_bits(a).powi(n).to_bits()
    }
    fn clamp(&self, a: u32, low: u32, high: u32) -> u32 {
        f32::from_bits(a).clamp(f32::from_bits(low), f32::from_bits(high)).to_bits()
    }
    fn less(&self, a: u32, b: u32) -> bool {
        f32::from_bits(a) < f32::from_bits(b)
    }
}

fn sound(numbers: [f32; 4], position: usize) -> AudioSample<4> {
    AudioSample { sample: numbers.map(f32::to_bits), position }
}

fn numbers(words: [u32; 4]) -> [f32; 4] {
    words.map(f32::from_bits)
}

#[test]
fn mix_adds_what_plays() {
    let mut samples = vec![
        sound([1.0, 2.0, 3.0, 4.0], 0),
        sound([0.5, 0.25, 0.125, 8.0], 2),
        sound([9.0, 9.0, 9.0, 9.0], 4),
    ];
    let signal = mix(&Binary32, &mut samples, 3);
    assert_eq!(numbers(signal), [1.125, 10.0, 3.0, 0.0]);
    assert_eq!(samples.len(), 1);
    assert_eq!(samples[0].position, 3);
    let signal = mix(&Binary32, &mut samples, 4);
    assert_eq!(numbers(signal), [4.0, 0.0, 0.0, 0.0]);
    assert_eq!(samples.len(), 0);
}

#[test]
fn mix_keeps_a_sound_until_it_is_asked_again() {
    let mut samples = vec![sound([1.0, 2.0, 3.0, 4.0], 0)];
    let signal = mix(&Binary32, &mut samples, 4);
    assert_eq!(numbers(signal), [1.0, 2.0, 3.0, 4.0]);
    assert_eq!(samples.len(), 1);
    assert_eq!(samples[0].position, 4);
    let signal = mix(&Binary32, &mut samples, 1);
    assert_eq!(numbers(signal), [0.0; 4]);
    assert_eq!(samples.len(), 0);
}

#[test]
fn mix_of_nothing_is_silence() {
    let mut samples: Vec<AudioSample<4>> = Vec::new();
    assert_eq!(mix(&Binary32, &mut samples, 4), [0; 4]);
    let mut samples = vec![sound([1.0; 4], 0)];
    assert_eq!(mix(&Binary32, &mut samples, 0), [0; 4]);
    assert_eq!(samples[0].position, 0);
}

#[test]
fn region_takes_limited_samples_round_its_end() {
    let mut region = [0u32; BUFFER_REGION_SIZE];
    let mut pointer = BUFFER_REGION_SIZE - 2;
    region[1] = 0.125f32.to_bits();
    let signal = [0.5f32, -3.0, 7.0, 0.25].map(f32::to_bits);
    write_region(&Binary32, &mut region, &mut pointer, &signal, 3);
    assert_eq!(f32::from_bits(region[BUFFER_REGION_SIZE - 2]), 0.5);
    assert_eq!(f32::from_bits(region[BUFFER_REGION_SIZE - 1]), -1.0);
    assert_eq!(f32::from_bits(region[0]), 1.0);
    assert_eq!(f32::from_bits(region[1]), 0.125);
    assert_eq!(pointer, 1);
}

fn reference_declick(region: &mut [f32; BUFFER_REGION_SIZE], start: usize, sample_rate: u32) {
    let coeff_b = (-1.0 / (0.023 * (sample_rate as f32)).max(f32::MIN)).exp();
    let held = region[start + 1];
    for k in 1..4 {
        let left = (start + 2 * k) % BUFFER_REGION_SIZE;
        let right = (start + 2 * k + 1) % BUFFER_REGION_SIZE;
        region[left] = held * (1.0 - coeff_b) + region[right] * coeff_b;
        region[right] = held;
    }
}

#[test]
fn declick_smooths_three_frames() {
    for (pointer, start) in [(8usize, 4usize), (0, 2044), (2, 2046), (2046, 2042), (4, 0)] {
        let mut expected = [0.0f32; BUFFER_REGION_SIZE];
        for i in 0..BUFFER_REGION_SIZE {
            expected[i] = (i % 97) as f32 / 97.0;
        }
        let mut region = expected.map(f32::to_bits);
        reference_declick(&mut expected, start, 48000);
        declick(&Binary32, 48000, &mut region, pointer);
        assert_eq!(region, expected.map(f32::to_bits));
    }
}

#[test]
fn declick_at_rate_zero_lets_nothing_through() {
    // the time constant is zero, so the coefficient is exp(-inf)
    let mut region = [0u32; BUFFER_REGION_SIZE];
    region[5] = 0.75f32.to_bits();
    region[7] = 0.5f32.to_bits();
    declick(&Binary32, 0, &mut region, 8);
    assert_eq!(f32::from_bits(region[6]), 0.75);
    assert_eq!(f32::from_bits(region[7]), 0.75);
    assert_eq!(f32::from_bits(region[11]), 0.75);
    assert_eq!(region[12], 0);
    assert_eq!(region[4], 0);
}
