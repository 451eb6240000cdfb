use magpie_app::color_view::{color_syntax, parse_hex, parse_hex_checked, strip_call, ColorSyntax};

/// The hex and plain parts of drawing a swatch, with the numbers of an
/// `rgb()` call read as whole values.
fn swatch(text: &str) -> Option<(u8, u8, u8)> {
    match color_syntax(text) {
        ColorSyntax::Hex(h) => parse_hex(&h),
        ColorSyntax::Rgb(fields) => {
            let n: Option<Vec<f32>> = fields.iter().map(|f| f.parse::<f32>().ok()).collect();
            let n = n?;
            if n.len() != 3 {
                return None;
            }
            let c = |v: f32| v.clamp(0.0, 255.0).round() as u8;
            Some((c(n[0]), c(n[1]), c(n[2])))
        }
        ColorSyntax::Hsl(_) | ColorSyntax::Plain => None,
    }
}

#[test]
fn short_hex_doubles_digits() {
    assert_eq!(swatch("#333"), Some((0x33, 0x33, 0x33)));
    assert_eq!(swatch("#f00"), Some((255, 0, 0)));
}

#[test]
fn long_hex() {
    assert_eq!(swatch("#333333"), Some((0x33, 0x33, 0x33)));
    assert_eq!(swatch("#FF8800"), Some((255, 0x88, 0)));
}

#[test]
fn rejects_non_colors() {
    assert_eq!(swatch("hello"), None);
    assert_eq!(swatch("#12"), None);
    assert_eq!(swatch("#12345"), None);
    assert_eq!(swatch("rgb(1,2)"), None);
    assert_eq!(swatch("rgb(a,b,c)"), None);
    assert_eq!(swatch(""), None);
}

#[test]
fn rgb_fields_are_trimmed_and_lowercase_call_is_found() {
    assert_eq!(swatch("RGB(255,255,255)"), Some((255, 255, 255)));
    match color_syntax("  rgb( 12 , 34 , 56 )  ") {
        ColorSyntax::Rgb(f) => assert_eq!(f, vec!["12", "34", "56"]),
        _ => panic!("expected an rgb call"),
    }
}

#[test]
fn hsl_fields_drop_percent_signs() {
    match color_syntax("HSL(0, 0%, 20%)") {
        ColorSyntax::Hsl(f) => assert_eq!(f, vec!["0", "0", "20"]),
        _ => panic!("expected an hsl call"),
    }
    match color_syntax("hsl(359, 50 %% , 50%)") {
        ColorSyntax::Hsl(f) => assert_eq!(f, vec!["359", "50", "50"]),
        _ => panic!("expected an hsl call"),
    }
}

#[test]
fn hex_text_keeps_its_case_and_plain_text_is_plain() {
    match color_syntax(" #ABCDEF ") {
        ColorSyntax::Hex(h) => assert_eq!(h, "ABCDEF"),
        _ => panic!("expected hex"),
    }
    assert!(matches!(color_syntax("rgba(1,2,3,4)"), ColorSyntax::Plain));
    assert!(matches!(color_syntax("rgb 1,2,3"), ColorSyntax::Plain));
}

#[test]
fn strip_call_takes_the_inside_of_the_parentheses() {
    assert_eq!(strip_call("rgb(1, 2, 3)", "rgb"), Some("1, 2, 3"));
    assert_eq!(strip_call("rgb  ( x )  ", "rgb"), Some(" x "));
    assert_eq!(strip_call("hsl(1)", "rgb"), None);
    assert_eq!(strip_call("rgb(1", "rgb"), None);
}

#[test]
fn hex_groups_read_with_an_optional_plus() {
    assert_eq!(parse_hex("abc"), Some((0xaa, 0xbb, 0xcc)));
    assert_eq!(parse_hex("+f+f+f"), Some((15, 15, 15)));
    assert_eq!(parse_hex("+ff"), None);
    assert_eq!(parse_hex("zzzzzz"), None);
}

#[test]
fn hex_group_cutting_a_character_is_reported() {
    assert_eq!(parse_hex_checked("é1"), None);
    assert_eq!(parse_hex_checked("éé"), Some(None));
    assert_eq!(parse_hex_checked("1é"), None);
}
