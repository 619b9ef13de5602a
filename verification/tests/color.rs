use raytracer::color::{quantise, Color};

fn by_arithmetic(channel: f64) -> u8 {
    (256.0 * channel.clamp(0.0, 0.999)) as u8
}

#[test]
fn new_keeps_channels() {
    let color = Color::new(1, 2, 3);
    assert_eq!(color.red, 1);
    assert_eq!(color.green, 2);
    assert_eq!(color.blue, 3);
    assert_eq!(color, Color { red: 1, green: 2, blue: 3 });
}

#[test]
fn write_ends_each_channel_with_a_space() {
    assert_eq!(Color::new(255, 0, 128).write(), "255 0 128 ");
}

#[test]
fn to_text_has_no_trailing_space() {
    assert_eq!(Color::new(255, 0, 128).to_text(), "255 0 128");
}

#[test]
fn black_and_white() {
    assert_eq!(Color::new(0, 0, 0).write(), "0 0 0 ");
    assert_eq!(Color::new(255, 255, 255).write(), "255 255 255 ");
}

#[test]
fn digit_count_boundaries() {
    assert_eq!(Color::new(9, 10, 11).to_text(), "9 10 11");
    assert_eq!(Color::new(99, 100, 101).to_text(), "99 100 101");
    assert_eq!(Color::new(109, 110, 200).to_text(), "109 110 200");
    assert_eq!(Color::new(7, 70, 207).to_text(), "7 70 207");
}

#[test]
fn every_byte_is_written_as_std_writes_it() {
    for n in 0..=255u8 {
        let text = Color::new(n, 255 - n, n / 2).write();
        assert_eq!(text, format!("{} {} {} ", n, 255 - n, n / 2));
    }
}

#[test]
fn write_is_to_text_and_a_space() {
    let color = Color::new(12, 34, 56);
    assert_eq!(color.write(), format!("{} ", color.to_text()));
}

#[test]
fn quantise_exact_levels() {
    assert_eq!(quantise(0.0f64.to_bits()), 0);
    assert_eq!(quantise(0.25f64.to_bits()), 64);
    assert_eq!(quantise(0.5f64.to_bits()), 128);
    assert_eq!(quantise(0.75f64.to_bits()), 192);
    assert_eq!(quantise(0.1f64.to_bits()), 25);
    assert_eq!(quantise(0.7f64.to_bits()), 179);
}

#[test]
fn quantise_holds_the_top_of_the_range() {
    assert_eq!(quantise(0.999f64.to_bits()), 255);
    assert_eq!(quantise(0.9999f64.to_bits()), 255);
    assert_eq!(quantise(1.0f64.to_bits()), 255);
    assert_eq!(quantise(2.0f64.to_bits()), 255);
    assert_eq!(quantise(1e300f64.to_bits()), 255);
    assert_eq!(quantise(f64::MAX.to_bits()), 255);
    assert_eq!(quantise(f64::INFINITY.to_bits()), 255);
}

#[test]
fn quantise_takes_negative_channels_as_dark() {
    assert_eq!(quantise((-0.0f64).to_bits()), 0);
    assert_eq!(quantise((-0.5f64).to_bits()), 0);
    assert_eq!(quantise((-1e300f64).to_bits()), 0);
    assert_eq!(quantise(f64::NEG_INFINITY.to_bits()), 0);
}

#[test]
fn quantise_takes_what_is_not_a_number_as_dark() {
    assert_eq!(quantise(f64::NAN.to_bits()), 0);
    assert_eq!(quantise((-f64::NAN).to_bits()), 0);
    assert_eq!(quantise(u64::MAX), 0);
    assert_eq!(quantise(0x7ff0_0000_0000_0001), 0);
}

#[test]
fn quantise_level_boundaries() {
    for level in 1..=255u32 {
        let edge = level as f64 / 256.0;
        let below = f64::from_bits(edge.to_bits() - 1);
        assert_eq!(quantise(edge.to_bits()), level as u8);
        assert_eq!(quantise(below.to_bits()), (level - 1) as u8);
    }
}

#[test]
fn quantise_small_channels() {
    assert_eq!(quantise(5e-324f64.to_bits()), 0);
    assert_eq!(quantise(f64::MIN_POSITIVE.to_bits()), 0);
    assert_eq!(quantise(1e-8f64.to_bits()), 0);
    assert_eq!(quantise(0.0039f64.to_bits()), 0);
    assert_eq!(quantise(0.00390625f64.to_bits()), 1);
    assert_eq!(quantise(0.0078125f64.to_bits()), 2);
}

#[test]
fn quantise_agrees_with_arithmetic_on_a_sweep() {
    for i in -2000..=12000i32 {
        let channel = i as f64 / 10000.0;
        assert_eq!(quantise(channel.to_bits()), by_arithmetic(channel), "{}", channel);
    }
}

#[test]
fn quantise_agrees_with_arithmetic_on_scattered_bits() {
    let mut bits: u64 = 0x9e37_79b9_7f4a_7c15;
    for _ in 0..20000 {
        bits = bits.wrapping_mul(6364136223846793005).wrapping_add(1442695040888963407);
        let channel = f64::from_bits(bits);
        assert_eq!(quantise(bits), by_arithmetic(channel), "{:x}", bits);
        let near_unit = f64::from_bits(0x3f00_0000_0000_0000 | (bits >> 8));
        assert_eq!(quantise(near_unit.to_bits()), by_arithmetic(near_unit), "{}", near_unit);
    }
}

#[test]
fn quantised_pixel_of_a_colour() {
    let color = Color::quantised(1.0f64.to_bits(), 0.5f64.to_bits(), 0.0f64.to_bits());
    assert_eq!(color, Color::new(255, 128, 0));
    assert_eq!(color.to_text(), "255 128 0");
}

#[test]
fn averaged_and_gamma_corrected_pixel() {
    let samples_per_pixel = 500u32;
    let sums = [125.0f64, 500.0, 0.0];
    let scale = 1.0 / samples_per_pixel as f64;
    let color = Color::quantised(
        (sums[0] * scale).sqrt().to_bits(),
        (sums[1] * scale).sqrt().to_bits(),
        (sums[2] * scale).sqrt().to_bits(),
    );
    assert_eq!(color.write(), "128 255 0 ");
}

#[test]
fn brighter_channels_never_get_lower_levels() {
    let mut last = 0u8;
    for i in -50..=1100i32 {
        let channel = i as f64 / 1000.0;
        let level = quantise(channel.to_bits());
        assert!(last <= level, "{}", channel);
        last = level;
    }
    assert_eq!(last, 255);
}

#[test]
fn written_channels_read_back() {
    for n in 0..=255u8 {
        let text = Color::new(n, 0, 255).to_text();
        let mut parts = text.split(' ');
        assert_eq!(parts.next().unwrap().parse::<u8>().unwrap(), n);
        assert_eq!(parts.next(), Some("0"));
        assert_eq!(parts.next(), Some("255"));
        assert_eq!(parts.next(), None);
        assert!(n == 0 || !text.starts_with('0'));
    }
}
