use pipecolor::color::Color;
use pipecolor::colorize::{colorize, style_match, ColorizeError, Config, Line, Token};
use pipecolor::pattern::Pattern;

fn names(v: &[&str]) -> Vec<String> {
    v.iter().map(|s| s.to_string()).collect()
}

fn token(pat: &str, colors: &[&str]) -> Token {
    Token { pat: Pattern::new(pat).unwrap(), colors: names(colors) }
}

fn line(pat: &str, colors: &[&str], tokens: Vec<Token>) -> Line {
    Line { pat: Pattern::new(pat).unwrap(), colors: names(colors), tokens }
}

fn test_config() -> Config {
    Config {
        lines: vec![
            line(
                "A(.*) (.*) (.*) .*",
                &["Black", "Blue", "Cyan", "Default"],
                vec![token("A", &["Green"])],
            ),
            line(
                "B(.*) (.*) (.*) .*",
                &["LightBlack", "LightBlue", "LightCyan", "LightGreen"],
                vec![],
            ),
            line(
                "C(.*) (.*) (.*) .*",
                &["LightMagenta", "LightRed", "LightWhite", "LightYellow"],
                vec![],
            ),
            line("D(.*) (.*) (.*) .*", &["Magenta", "Red", "White", "Yellow"], vec![]),
        ],
    }
}

fn test_config2() -> Config {
    Config { lines: vec![line("A(.*) (.*) (.*) .*", &["xxx", "Blue", "Cyan", "Default"], vec![])] }
}

fn default_config() -> Config {
    Config {
        lines: vec![
            line("(Error).*", &["Red", "LightRed"], vec![]),
            line("(Warning).*", &["Yellow", "LightYellow"], vec![]),
            line("(Info).*", &["Green", "LightGreen"], vec![]),
        ],
    }
}

#[test]
fn test_colorize() {
    let config = test_config();
    let (ret, idx) = colorize(String::from("A123 456 789 xyz"), &config).unwrap();
    assert_eq!(ret, "\u{1b}[38;5;0m\u{1b}[38;5;2mA\u{1b}[38;5;0m\u{1b}[38;5;4m123\u{1b}[38;5;0m \u{1b}[38;5;6m456\u{1b}[38;5;0m \u{1b}[39m789\u{1b}[38;5;0m xyz\u{1b}[39m");
    assert_eq!(idx, Some(0));

    let (ret, idx) = colorize(String::from("B123 456 789 xyz"), &config).unwrap();
    assert_eq!(ret, "\u{1b}[38;5;8mB\u{1b}[38;5;12m123\u{1b}[38;5;8m \u{1b}[38;5;14m456\u{1b}[38;5;8m \u{1b}[38;5;10m789\u{1b}[38;5;8m xyz\u{1b}[39m");
    assert_eq!(idx, Some(1));

    let (ret, idx) = colorize(String::from("C123 456 789 xyz"), &config).unwrap();
    assert_eq!(ret, "\u{1b}[38;5;13mC\u{1b}[38;5;9m123\u{1b}[38;5;13m \u{1b}[38;5;15m456\u{1b}[38;5;13m \u{1b}[38;5;11m789\u{1b}[38;5;13m xyz\u{1b}[39m");
    assert_eq!(idx, Some(2));

    let (ret, idx) = colorize(String::from("D123 456 789 xyz"), &config).unwrap();
    assert_eq!(ret, "\u{1b}[38;5;5mD\u{1b}[38;5;1m123\u{1b}[38;5;5m \u{1b}[38;5;7m456\u{1b}[38;5;5m \u{1b}[38;5;3m789\u{1b}[38;5;5m xyz\u{1b}[39m");
    assert_eq!(idx, Some(3));

    let (ret, idx) = colorize(String::from("E123 456 789 xyz"), &config).unwrap();
    assert_eq!(ret, "E123 456 789 xyz");
    assert_eq!(idx, None);
}

#[test]
fn test_colorize_fail() {
    let config = test_config2();
    let ret = colorize(String::from("A123 456 789 xyz"), &config);
    let err = ret.unwrap_err();
    assert_eq!(err.message(), "failed to parse color name 'xxx'");
    assert!(matches!(err, ColorizeError::UnknownColor(ref n) if n == "xxx"));
}

#[test]
fn no_match_returns_line_unchanged() {
    let config = default_config();
    let (ret, idx) = colorize(String::from("all is well\n"), &config).unwrap();
    assert_eq!(ret, "all is well\n");
    assert_eq!(idx, None);
    let (ret, idx) = colorize(String::new(), &config).unwrap();
    assert_eq!(ret, "");
    assert_eq!(idx, None);
    let empty = Config { lines: vec![] };
    let (ret, idx) = colorize(String::from("Error here"), &empty).unwrap();
    assert_eq!(ret, "Error here");
    assert_eq!(idx, None);
}

#[test]
fn error_line_gets_red_and_light_red() {
    let config = default_config();
    let (ret, idx) = colorize(String::from("Error: disk full\n"), &config).unwrap();
    assert_eq!(ret, "\u{1b}[38;5;1m\u{1b}[38;5;9mError\u{1b}[38;5;1m: disk full\u{1b}[39m\n");
    assert_eq!(idx, Some(0));
}

#[test]
fn first_matching_rule_wins() {
    let config = Config {
        lines: vec![
            line("(x)", &["Red", "Blue"], vec![]),
            line("(Warning)", &["Green", "Cyan"], vec![]),
            line("(Warn)ing", &["Yellow", "Magenta"], vec![]),
        ],
    };
    let (ret, idx) = colorize(String::from("Warning"), &config).unwrap();
    assert_eq!(idx, Some(1));
    assert_eq!(ret, "\u{1b}[38;5;2m\u{1b}[38;5;6mWarning\u{1b}[38;5;2m\u{1b}[39m");
}

#[test]
fn later_rules_are_not_consulted_after_a_match() {
    // the second rule would fail on its color name, but the first rule matches
    let config = Config {
        lines: vec![line("(ok)", &["Red", "Blue"], vec![]), line("(ok)", &["nope"], vec![])],
    };
    let (_, idx) = colorize(String::from("ok"), &config).unwrap();
    assert_eq!(idx, Some(0));
}

#[test]
fn missing_color_is_an_error() {
    let config = Config { lines: vec![line("(a)(b)", &["Red"], vec![])] };
    let err = colorize(String::from("ab"), &config).unwrap_err();
    assert!(matches!(err, ColorizeError::MissingColor(1)));
    assert_eq!(err.message(), "a group of a match has no color name");
}

#[test]
fn group_that_takes_no_part_needs_no_color() {
    let config = Config { lines: vec![line("(a)|(b)", &["Red", "Blue"], vec![])] };
    let (ret, idx) = colorize(String::from("a"), &config).unwrap();
    assert_eq!(ret, "\u{1b}[38;5;1m\u{1b}[38;5;4ma\u{1b}[38;5;1m\u{1b}[39m");
    assert_eq!(idx, Some(0));
}

#[test]
fn spans_follow_multibyte_characters() {
    let config = Config { lines: vec![line("(é+)", &["Default", "Red"], vec![])] };
    let (ret, _) = colorize(String::from("caféé!"), &config).unwrap();
    assert_eq!(ret, "caf\u{1b}[39m\u{1b}[38;5;1méé\u{1b}[39m\u{1b}[39m!");
}

#[test]
fn styled_line_ends_with_default_color() {
    // every start has its end: after the sweep only the default color is left
    let config = test_config();
    let (ret, _) = colorize(String::from("A1 2 3 4"), &config).unwrap();
    assert!(ret.ends_with("\u{1b}[39m"));
    assert_eq!(ret.matches("\u{1b}[").count(), 10);
}

#[test]
fn token_end_comes_before_line_start_at_same_offset() {
    let config = Config {
        lines: vec![line(
            "x(y)",
            &["Default", "Blue"],
            vec![token("x", &["Green"])],
        )],
    };
    let (ret, _) = colorize(String::from("xy"), &config).unwrap();
    assert_eq!(
        ret,
        "\u{1b}[39m\u{1b}[38;5;2mx\u{1b}[39m\u{1b}[38;5;4my\u{1b}[39m\u{1b}[39m"
    );
}

#[test]
fn zero_width_token_keeps_output_total() {
    let config = Config {
        lines: vec![line("b", &["Red"], vec![token("x*", &["Green"])])],
    };
    let (ret, idx) = colorize(String::from("ab"), &config).unwrap();
    assert_eq!(idx, Some(0));
    assert_eq!(ret, "\u{1b}[39m\u{1b}[38;5;2ma\u{1b}[38;5;1mb\u{1b}[38;5;2m");
}

#[test]
fn invalid_pattern_is_rejected() {
    assert!(Pattern::new("(").is_err());
    assert_eq!(Pattern::new("a(b)").unwrap().as_str(), "a(b)");
}

#[test]
fn escape_sequences_of_colors() {
    assert_eq!(Color::Black.escape(), "\u{1b}[38;5;0m");
    assert_eq!(Color::LightRed.escape(), "\u{1b}[38;5;9m");
    assert_eq!(Color::LightWhite.escape(), "\u{1b}[38;5;15m");
    assert_eq!(Color::Default.escape(), "\u{1b}[39m");
    assert_eq!(Color::from_name("Magenta"), Some(Color::Magenta));
    assert_eq!(Color::from_name("magenta"), None);
    assert_eq!(Color::from_name(""), None);
}

#[test]
fn style_match_on_given_spans() {
    let rule = line("x(y)", &["Default", "Blue"], vec![token("x", &["Green"])]);
    let out = style_match("xy", &rule, &vec![Some((0, 2)), Some((1, 2))], &vec![Some(vec![Some((0, 1))])])
        .unwrap();
    assert_eq!(out, "\u{1b}[39m\u{1b}[38;5;2mx\u{1b}[39m\u{1b}[38;5;4my\u{1b}[39m\u{1b}[39m");
    // a token that found nothing adds no events; a group that took no part needs no color
    let out = style_match("xy", &rule, &vec![Some((0, 1)), None], &vec![None]).unwrap();
    assert_eq!(out, "\u{1b}[39mx\u{1b}[39my");
    // spans are used as given, whatever the pattern
    let out = style_match("abc", &rule, &vec![Some((1, 1))], &vec![None]).unwrap();
    assert_eq!(out, "a\u{1b}[39m\u{1b}[39mbc");
    let err = style_match("xy", &rule, &vec![Some((0, 2)), Some((1, 2)), Some((0, 1))], &vec![None])
        .unwrap_err();
    assert!(matches!(err, ColorizeError::MissingColor(2)));
}
