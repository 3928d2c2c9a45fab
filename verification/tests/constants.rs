use keyboard_synth::arithmetic;
use keyboard_synth::desk;
use keyboard_synth::effect;
use keyboard_synth::generator;
use keyboard_synth::region;

#[test]
fn words_hold_their_numbers() {
    assert_eq!(f32::from_bits(arithmetic::ZERO).to_bits(), 0.0f32.to_bits());
    assert_eq!(arithmetic::QUARTER, 0.25f32.to_bits());
    assert_eq!(arithmetic::HALF, 0.5f32.to_bits());
    assert_eq!(arithmetic::ONE, 1.0f32.to_bits());
    assert_eq!(arithmetic::ONE_AND_HALF, 1.5f32.to_bits());
    assert_eq!(arithmetic::TWO, 2.0f32.to_bits());
    assert_eq!(arithmetic::MINUS_ONE, (-1.0f32).to_bits());
    assert_eq!(arithmetic::SIXTY_FOUR, 64.0f32.to_bits());
    assert_eq!(generator::THREE_TENTHS, 0.3f32.to_bits());
    assert_eq!(generator::SIX_TENTHS, 0.6f32.to_bits());
    assert_eq!(generator::TAU, std::f32::consts::TAU.to_bits());
    assert_eq!(generator::THIRTY, 30.0f32.to_bits());
    assert_eq!(generator::FORTY, 40.0f32.to_bits());
    assert_eq!(generator::SIXTY_THREE, 63.0f32.to_bits());
    assert_eq!(generator::CONCERT_PITCH, 440.0f32.to_bits());
    assert_eq!(generator::HASH_RANGE, (u64::MAX as f32).to_bits());
    assert_eq!(effect::ONE_SIXTY_FOURTH, (1.0f32 / 64.0).to_bits());
    assert_eq!(region::SMOOTHING_SECONDS, 0.023f32.to_bits());
    assert_eq!(region::LOWEST, f32::MIN.to_bits());
    assert_eq!(desk::THREE, 3.0f32.to_bits());
    assert_eq!(desk::TWELVE, 12.0f32.to_bits());
    assert_eq!(desk::SCREEN_WIDTH, 1920.0f32.to_bits());
    assert_eq!(desk::NOTE_OF_TOPLEFT, (-7.0f32).to_bits());
}
