use mandelbrot::palette::{iteration_to_pixel, Color, HexColor};
fn pixel_of(value: i32) -> Color {
    HexColor::from_value(value).to_rgb()
}

use mandelbrot::{MAX_ITERATIONS, PALETTE_SIZE, SCREEN_HEIGHT, SCREEN_WIDTH};

#[test]
fn constants_have_their_fixed_values() {
    assert_eq!(MAX_ITERATIONS, 10000);
    assert_eq!(PALETTE_SIZE, 40);
    assert_eq!(SCREEN_WIDTH, 16384);
    assert_eq!(SCREEN_HEIGHT, 16384);
}

#[test]
fn extract_channel_reads_two_digits_at_each_offset() {
    let hex = HexColor(String::from("a0b1c2"));
    assert_eq!(hex.extract_channel(0), 0xa0);
    assert_eq!(hex.extract_channel(2), 0xb1);
    assert_eq!(hex.extract_channel(4), 0xc2);
}

#[test]
fn extract_channel_reads_odd_offsets_too() {
    let hex = HexColor(String::from("0123456789"));
    assert_eq!(hex.extract_channel(1), 0x12);
    assert_eq!(hex.extract_channel(8), 0x89);
}

#[test]
fn extract_channel_accepts_upper_case() {
    let hex = HexColor(String::from("FFaBCd"));
    assert_eq!(hex.extract_channel(0), 255);
    assert_eq!(hex.extract_channel(2), 0xab);
    assert_eq!(hex.extract_channel(4), 0xcd);
}

#[test]
fn extract_channel_counts_bytes_after_wide_characters() {
    let hex = HexColor(String::from("\u{e9}ff"));
    assert_eq!(hex.extract_channel(2), 255);
}

#[test]
fn right_padded_text_puts_the_digit_in_the_red_channel() {
    let hex = HexColor(String::from("a00000"));
    assert_eq!(hex.extract_channel(0), 160);
    assert_eq!(hex.to_rgb(), Color { red: 160, green: 0, blue: 0 });
}

#[test]
fn zero_is_black() {
    let hex = HexColor::from_value(0);
    assert_eq!(hex.0, "000000");
    assert_eq!(hex.to_rgb(), Color { red: 0, green: 0, blue: 0 });
    assert_eq!(iteration_to_pixel(0), Color { red: 0, green: 0, blue: 0 });
}

#[test]
fn small_values_are_padded_on_the_right() {
    assert_eq!(HexColor::from_value(10).0, "a00000");
    assert_eq!(HexColor::from_value(0x1f).0, "1f0000");
    assert_eq!(HexColor::from_value(0xabc).0, "abc000");
    assert_eq!(pixel_of(10), Color { red: 0xa0, green: 0, blue: 0 });
    assert_eq!(pixel_of(0xabc), Color { red: 0xab, green: 0xc0, blue: 0 });
}

#[test]
fn six_digit_values_are_used_as_they_are() {
    assert_eq!(HexColor::from_value(0x123456).0, "123456");
    assert_eq!(pixel_of(0x123456), Color { red: 0x12, green: 0x34, blue: 0x56 });
    assert_eq!(pixel_of(0xffffff), Color { red: 255, green: 255, blue: 255 });
}

#[test]
fn longer_values_keep_all_digits_and_decode_the_first_six() {
    assert_eq!(HexColor::from_value(0x1234567).0, "1234567");
    assert_eq!(pixel_of(0x1234567), Color { red: 0x12, green: 0x34, blue: 0x56 });
}

#[test]
fn negative_values_are_written_in_twos_complement() {
    assert_eq!(HexColor::from_value(-1).0, "ffffffff");
    assert_eq!(HexColor::from_value(i32::MIN).0, "80000000");
    assert_eq!(pixel_of(-1), Color { red: 255, green: 255, blue: 255 });
    assert_eq!(pixel_of(i32::MIN), Color { red: 0x80, green: 0, blue: 0 });
}

fn float_pixel(iteration: u16) -> Color {
    let palette_choice = (iteration % 40) as f32;
    let scaled = ((palette_choice / (40.0f32 - 0.0)) * (16777215.0f32 - 0.0)) + 0.0;
    let text = format!("{:0<6x}", scaled as i32);
    Color {
        red: u8::from_str_radix(&text[0..2], 16).unwrap(),
        green: u8::from_str_radix(&text[2..4], 16).unwrap(),
        blue: u8::from_str_radix(&text[4..6], 16).unwrap(),
    }
}

#[test]
fn iteration_to_pixel_wraps_at_the_palette_size() {
    assert_eq!(iteration_to_pixel(0), iteration_to_pixel(PALETTE_SIZE));
    assert_eq!(iteration_to_pixel(PALETTE_SIZE), Color { red: 0, green: 0, blue: 0 });
}

#[test]
fn iteration_to_pixel_is_periodic() {
    for i in 0..=10000u16 {
        assert_eq!(iteration_to_pixel(i), iteration_to_pixel(i + PALETTE_SIZE));
    }
}

#[test]
fn iteration_to_pixel_has_the_colours_of_the_band() {
    // 1 / 40 * 16777215 = 419430.375, written "66666" and padded to "666660".
    assert_eq!(iteration_to_pixel(1), Color { red: 0x66, green: 0x66, blue: 0x60 });
    // 10 / 40 * 16777215 = 4194303.75, whose integer part is 0x3fffff.
    assert_eq!(iteration_to_pixel(10), Color { red: 0x3f, green: 0xff, blue: 0xff });
    // 20 / 40 * 16777215 = 8388607.5, whose integer part is 0x7fffff.
    assert_eq!(iteration_to_pixel(20), Color { red: 0x7f, green: 0xff, blue: 0xff });
    // 39 / 40 * 16777215 rounds to 16357785 = 0xf99999.
    assert_eq!(iteration_to_pixel(39), Color { red: 0xf9, green: 0x99, blue: 0x99 });
}

#[test]
fn iteration_to_pixel_agrees_with_floating_point() {
    for i in 0..=u16::MAX {
        assert_eq!(iteration_to_pixel(i), float_pixel(i), "iteration {}", i);
    }
}
