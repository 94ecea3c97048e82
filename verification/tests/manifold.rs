use manifold::config::{
    IpV4Config, IpV6Config, KeyValueConfig, KeywordConfig, NumberConfig, QuoteConfig, TimeConfig,
    UnixPathConfig, UnixProcessConfig, UrlConfig, UuidConfig,
};
use manifold::style::{
    blue, blue_and_faint, blue_and_italic, cyan, faint, green, green_and_faint, magenta,
    magenta_and_italic, red, red_and_faint, white, yellow,
};
use manifold::{Color, Manifold, Style};
use nu_ansi_term::Color as NuColor;
use nu_ansi_term::Style as NuStyle;

const UUID: &str = "123e4567-e89b-12d3-a456-426614174000";

fn only(fg: Color) -> Style {
    Style { fg: Some(fg), bg: None, bold: false, faint: false, italic: false, underline: false }
}

fn uuid_then_number() -> Manifold {
    Manifold::builder()
        .with_uuid_highlighter_from_style(blue(), green(), red())
        .with_number_highlighter_from_style(cyan())
        .build()
}

fn number_then_uuid() -> Manifold {
    Manifold::builder()
        .with_number_highlighter_from_style(cyan())
        .with_uuid_highlighter_from_style(blue(), green(), red())
        .build()
}

fn painted_uuid(text: &str) -> String {
    let mut expected = String::new();
    for c in text.chars() {
        let code = if c.is_ascii_digit() {
            "\x1b[34m"
        } else if c == '-' {
            "\x1b[31m"
        } else {
            "\x1b[32m"
        };
        expected.push_str(code);
        expected.push(c);
        expected.push_str("\x1b[0m");
    }
    expected
}

#[test]
fn a_number_highlighter_behind_a_uuid_highlighter_leaves_the_uuid_alone() {
    assert_eq!(uuid_then_number().apply(UUID.to_string()), painted_uuid(UUID));
}

#[test]
fn a_number_highlighter_in_front_claims_the_digits_that_stand_alone() {
    // The last group is a number on its own; what is left is no UUID any more.
    assert_eq!(
        number_then_uuid().apply(UUID.to_string()),
        "123e4567-e89b-12d3-a456-\x1b[36m426614174000\x1b[0m"
    );
    // Where no group is a number on its own, both get what is theirs.
    let other = "123e4567-e89b-12d3-a456-42661417400f";
    assert_eq!(
        number_then_uuid().apply(format!("7 {} 8", other)),
        format!("\x1b[36m7\x1b[0m {} \x1b[36m8\x1b[0m", painted_uuid(other))
    );
    assert_eq!(
        uuid_then_number().apply(format!("7 {} 8", other)),
        format!("\x1b[36m7\x1b[0m {} \x1b[36m8\x1b[0m", painted_uuid(other))
    );
}

#[test]
fn the_default_pipeline_paints_numbers_and_uuids() {
    let other = "f47ac10b-58cc-43a2-a567-0e02b2c3d47f";
    let mut expected = String::from("took \x1b[36m8080\x1b[0m id ");
    for c in other.chars() {
        let code = if c.is_ascii_digit() {
            "\x1b[3;34m"
        } else if c == '-' {
            "\x1b[31m"
        } else {
            "\x1b[3;35m"
        };
        expected.push_str(code);
        expected.push(c);
        expected.push_str("\x1b[0m");
    }
    assert_eq!(Manifold::default().apply(format!("took 8080 id {}", other)), expected);
    let built = Manifold::builder().with_number_highlighter().with_uuid_highlighter().build();
    assert_eq!(built.apply(format!("took 8080 id {}", other)), expected);
}

#[test]
fn the_default_pipeline_gives_numbers_the_first_claim() {
    assert_eq!(
        Manifold::default().apply("f47ac10b-58cc-4372-a567-0e02b2c3d47f".to_string()),
        "f47ac10b-58cc-\x1b[36m4372\x1b[0m-a567-0e02b2c3d47f"
    );
}

#[test]
fn text_without_tokens_comes_out_as_it_went_in() {
    assert_eq!(Manifold::default().apply("No match here!".to_string()), "No match here!");
    assert_eq!(uuid_then_number().apply("No match here!".to_string()), "No match here!");
}

#[test]
fn empty_text_comes_out_empty() {
    assert_eq!(Manifold::default().apply(String::new()), "");
    assert_eq!(Manifold::builder().build().apply(String::new()), "");
    assert_eq!(number_then_uuid().apply(String::new()), "");
}

#[test]
fn a_pipeline_without_highlighters_changes_nothing() {
    assert_eq!(Manifold::builder().build().apply("12 and 34".to_string()), "12 and 34");
}

#[test]
fn styled_text_comes_out_as_it_went_in() {
    let styled = format!("\x1b[31m12 {} 34\x1b[0m", UUID);
    assert_eq!(Manifold::default().apply(styled.clone()), styled);
    assert_eq!(number_then_uuid().apply(styled.clone()), styled);
    let once = Manifold::default().apply(UUID.to_string());
    assert_eq!(Manifold::default().apply(once.clone()), once);
}

#[test]
fn markup_that_is_never_closed_is_left_alone() {
    assert_eq!(
        Manifold::default().apply("up 15 \x1b[1mdown 16".to_string()),
        "up \x1b[36m15\x1b[0m \x1b[1mdown 16"
    );
}

#[test]
fn styled_parts_stay_while_plain_parts_are_painted() {
    assert_eq!(
        Manifold::default().apply("1 \x1b[31m2\x1b[0m 3".to_string()),
        "\x1b[36m1\x1b[0m \x1b[31m2\x1b[0m \x1b[36m3\x1b[0m"
    );
}

#[test]
fn each_colour_has_its_terminal_colour() {
    let pairs = [
        (Color::Black, NuColor::Black),
        (Color::DarkGray, NuColor::DarkGray),
        (Color::Red, NuColor::Red),
        (Color::LightRed, NuColor::LightRed),
        (Color::Green, NuColor::Green),
        (Color::LightGreen, NuColor::LightGreen),
        (Color::Yellow, NuColor::Yellow),
        (Color::LightYellow, NuColor::LightYellow),
        (Color::Blue, NuColor::Blue),
        (Color::LightBlue, NuColor::LightBlue),
        (Color::Purple, NuColor::Purple),
        (Color::LightPurple, NuColor::LightPurple),
        (Color::Magenta, NuColor::Magenta),
        (Color::LightMagenta, NuColor::LightMagenta),
        (Color::Cyan, NuColor::Cyan),
        (Color::LightCyan, NuColor::LightCyan),
        (Color::White, NuColor::White),
        (Color::LightGray, NuColor::LightGray),
        (Color::Default, NuColor::Default),
    ];
    for (color, expected) in pairs {
        assert_eq!(NuColor::from(&color), expected);
    }
}

#[test]
fn each_style_has_its_terminal_style() {
    assert!(NuStyle::from(Style {
        fg: None,
        bg: None,
        bold: false,
        faint: false,
        italic: false,
        underline: false
    }) == NuStyle::new());
    assert!(NuStyle::from(Style {
        fg: Some(Color::Red),
        bg: Some(Color::White),
        bold: true,
        faint: false,
        italic: true,
        underline: false
    }) == NuStyle::new().fg(NuColor::Red).on(NuColor::White).bold().italic());
    assert!(NuStyle::from(Style {
        fg: None,
        bg: None,
        bold: false,
        faint: true,
        italic: false,
        underline: true
    }) == NuStyle::new().dimmed().underline());
}

#[test]
fn presets_set_what_their_names_say() {
    assert_eq!(red(), only(Color::Red));
    assert_eq!(green(), only(Color::Green));
    assert_eq!(yellow(), only(Color::Yellow));
    assert_eq!(blue(), only(Color::Blue));
    assert_eq!(magenta(), only(Color::Magenta));
    assert_eq!(cyan(), only(Color::Cyan));
    assert_eq!(white(), only(Color::White));
    assert_eq!(
        faint(),
        Style { fg: None, bg: None, bold: false, faint: true, italic: false, underline: false }
    );
    assert_eq!(red_and_faint(), Style { faint: true, ..only(Color::Red) });
    assert_eq!(green_and_faint(), Style { faint: true, ..only(Color::Green) });
    assert_eq!(blue_and_faint(), Style { faint: true, ..only(Color::Blue) });
    assert_eq!(blue_and_italic(), Style { italic: true, ..only(Color::Blue) });
    assert_eq!(magenta_and_italic(), Style { italic: true, ..only(Color::Magenta) });
}

#[test]
fn configurations_have_their_default_styles() {
    assert_eq!(NumberConfig::default().number, cyan());

    let uuid = UuidConfig::default();
    assert_eq!((uuid.number, uuid.letter, uuid.dash), (blue_and_italic(), magenta_and_italic(), red()));

    let key_value = KeyValueConfig::default();
    assert_eq!((key_value.key, key_value.separator), (faint(), white()));

    let time = TimeConfig::default();
    assert_eq!((time.time, time.zone, time.separator), (blue(), red(), faint()));

    let ip_v4 = IpV4Config::default();
    assert_eq!((ip_v4.number, ip_v4.separator), (blue_and_italic(), red()));

    let ip_v6 = IpV6Config::default();
    assert_eq!(
        (ip_v6.number, ip_v6.letter, ip_v6.separator),
        (blue_and_italic(), magenta_and_italic(), red())
    );

    let url = UrlConfig::default();
    assert_eq!((url.http, url.https, url.host), (red_and_faint(), green_and_faint(), blue_and_faint()));
    assert_eq!(
        (url.path, url.query_params_key, url.query_params_value, url.symbols),
        (blue(), magenta(), cyan(), red())
    );

    let path = UnixPathConfig::default();
    assert_eq!((path.segment, path.separator), (green(), yellow()));

    let process = UnixProcessConfig::default();
    assert_eq!((process.name, process.id, process.bracket), (green(), yellow(), red()));

    let quote = QuoteConfig::default();
    assert_eq!((quote.quotes_token, quote.color), ('"', yellow()));
}

#[test]
fn keyword_configurations_compare_by_words_then_style() {
    let first = KeywordConfig { words: vec!["error".to_string()], style: red() };
    let same = KeywordConfig { words: vec!["error".to_string()], style: red() };
    let other = KeywordConfig { words: vec!["warn".to_string()], style: yellow() };
    assert_eq!(first, same);
    assert_ne!(first, other);
    assert!(first < other);
}
