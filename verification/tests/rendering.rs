use notion_river::rendering::parse_hex_color;

#[test]
fn opaque_color_is_scaled_to_32_bits() {
    assert_eq!(parse_hex_color("#ff8000"), (0xFFFFFFFF, 0x80808080, 0, 0xFFFFFFFF));
}

#[test]
fn alpha_premultiplies() {
    // 0xff * 0x80 / 255 = 0x80
    assert_eq!(parse_hex_color("#ffffff80"), (0x80808080, 0x80808080, 0x80808080, 0x80808080));
    assert_eq!(parse_hex_color("#40404000"), (0, 0, 0, 0));
}

#[test]
fn bad_lengths_give_gray() {
    assert_eq!(parse_hex_color("#abc"), (0x50505050, 0x50505050, 0x50505050, 0xFFFFFFFF));
    assert_eq!(parse_hex_color(""), (0x50505050, 0x50505050, 0x50505050, 0xFFFFFFFF));
}

#[test]
fn bad_digits_fall_back_per_channel() {
    assert_eq!(parse_hex_color("zz0000"), (0, 0, 0, 0xFFFFFFFF));
    assert_eq!(parse_hex_color("##00ff00zz"), (0, 0xFFFFFFFF, 0, 0xFFFFFFFF));
}
