use trx_engine::ast::style_buffer::{parse_hex_color, StyleBuffer};

#[test]
fn test_hex_color_parsing() {
    let mut buf = StyleBuffer::new();
    buf.set_color("fill", "#007acc");
    assert_eq!(buf.get_hex("fill"), Some("#007acc".to_string()));
}

#[test]
fn test_short_hex() {
    let mut buf = StyleBuffer::new();
    buf.set_color("stroke", "#fff");
    assert_eq!(buf.get_hex("stroke"), Some("#ffffff".to_string()));
}

#[test]
fn hex_forms_parse() {
    assert_eq!(parse_hex_color("#1a2b3c"), Some([0x1a, 0x2b, 0x3c, 255]));
    assert_eq!(parse_hex_color("abc"), Some([0xaa, 0xbb, 0xcc, 255]));
    assert_eq!(parse_hex_color("##ff000080"), Some([255, 0, 0, 128]));
    assert_eq!(parse_hex_color("#FFF"), Some([255, 255, 255, 255]));
}

#[test]
fn hex_sign_is_not_a_digit() {
    assert_eq!(parse_hex_color("+a0000"), None);
    assert_eq!(parse_hex_color("#+1+2+3"), None);
    assert_eq!(parse_hex_color("#-1-2-3"), None);
}

#[test]
fn hex_rejects_bad_text() {
    assert_eq!(parse_hex_color("#12"), None);
    assert_eq!(parse_hex_color("#zzzzzz"), None);
    assert_eq!(parse_hex_color("#ééé"), None);
    assert_eq!(parse_hex_color(""), None);
}

#[test]
fn hex_round_trip_law_example() {
    let mut buf = StyleBuffer::new();
    buf.set_rgba("c", [0x0f, 0xa0, 0xff, 7]);
    let hex = buf.get_hex("c").unwrap();
    assert_eq!(hex, "#0fa0ff");
    assert_eq!(parse_hex_color(&hex), Some([0x0f, 0xa0, 0xff, 255]));
}

#[test]
fn invalid_colour_leaves_buffer_unchanged() {
    let mut buf = StyleBuffer::new();
    buf.set_color("fill", "#123456");
    buf.set_color("fill", "not a colour");
    assert_eq!(buf.get_hex("fill"), Some("#123456".to_string()));
    assert_eq!(buf.get_hex("stroke"), None);
}

#[test]
fn css_text_with_opacity() {
    let mut buf = StyleBuffer::new();
    buf.set_color("fill", "#ff8000");
    assert_eq!(buf.get_css("fill"), Some("rgba(255,128,0,1.00)".to_string()));
    buf.opacities.insert("fill".to_string(), 45);
    assert_eq!(buf.get_css("fill"), Some("rgba(255,128,0,0.45)".to_string()));
    assert_eq!(buf.get_css("none"), None);
}
