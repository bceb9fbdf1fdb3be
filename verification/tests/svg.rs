use burin::resource::Icon;
use burin::svg::{
    is_number_token, parse_svg_commands, svg_path_commands_of, SvgArg, SvgKind, SvgPathError,
};

fn words(ws: &[&str]) -> Vec<String> {
    ws.iter().map(|w| w.to_string()).collect()
}

#[test]
fn test_simple_line_path() {
    let (tokens, parsed) = svg_path_commands_of("M10 20L30 40");
    let cmds = parsed.unwrap().unwrap();
    assert_eq!(cmds.len(), 2);
    assert_eq!((cmds[0].kind, cmds[0].relative), (SvgKind::Move, false));
    assert_eq!(cmds[0].args, vec![SvgArg::Whole(1), SvgArg::Whole(2)]);
    assert_eq!((tokens[1].as_str(), tokens[2].as_str()), ("10", "20"));
    assert_eq!(cmds[1].kind, SvgKind::Line);
    assert_eq!(cmds[1].args, vec![SvgArg::Whole(4), SvgArg::Whole(5)]);
    assert_eq!((tokens[4].as_str(), tokens[5].as_str()), ("30", "40"));
}

#[test]
fn test_close_path() {
    let (_, parsed) = svg_path_commands_of("M0 0L10 0L10 10Z");
    let cmds = parsed.unwrap().unwrap();
    assert_eq!(cmds.len(), 4);
    assert_eq!(cmds[3].kind, SvgKind::Close);
    assert!(cmds[3].args.is_empty());
}

#[test]
fn test_empty_path() {
    let (_, parsed) = svg_path_commands_of("");
    assert!(matches!(parsed, Some(Err(SvgPathError::Empty))));
}

#[test]
fn test_error_on_unknown_command() {
    let (tokens, parsed) = svg_path_commands_of("M0 0X10 10");
    assert!(matches!(parsed, Some(Err(SvgPathError::Unknown(3)))));
    assert_eq!(tokens[3], "X");
}

#[test]
fn numbers_repeat_the_last_command() {
    let cmds = parse_svg_commands(&words(&["l", "1", "2", "3", "4"])).unwrap().unwrap();
    assert_eq!(cmds.len(), 2);
    assert!(cmds.iter().all(|c| c.kind == SvgKind::Line && c.relative));
    assert_eq!(cmds[1].args, vec![SvgArg::Whole(3), SvgArg::Whole(4)]);
}

#[test]
fn horizontal_vertical_and_curves_take_their_counts() {
    let ts = words(&["H", "5", "v", "6", "C", "1", "2", "3", "4", "5", "6", "q", "1", "2", "3", "4"]);
    let cmds = parse_svg_commands(&ts).unwrap().unwrap();
    let kinds: Vec<SvgKind> = cmds.iter().map(|c| c.kind).collect();
    assert_eq!(kinds, vec![SvgKind::Horizontal, SvgKind::Vertical, SvgKind::Cubic, SvgKind::Quad]);
    assert_eq!(cmds.iter().map(|c| c.args.len()).collect::<Vec<_>>(), vec![1, 1, 6, 4]);
}

#[test]
fn missing_numbers_are_errors() {
    assert!(matches!(parse_svg_commands(&words(&["M", "1"])), Some(Err(SvgPathError::Missing(SvgKind::Move)))));
    assert!(matches!(parse_svg_commands(&words(&["M", "1", "2", "C", "1"])), Some(Err(SvgPathError::Missing(SvgKind::Cubic)))));
    assert!(matches!(parse_svg_commands(&words(&["10", "20"])), Some(Err(SvgPathError::NoCommand))));
}

#[test]
fn minified_digit_runs_fill_an_arc() {
    // "a1 1 0 00 1 1" : the flags "00" stand for two numbers.
    let ts = words(&["a", "1", "1", "0", "00", "1", "1"]);
    let cmds = parse_svg_commands(&ts).unwrap().unwrap();
    assert_eq!(cmds.len(), 1);
    assert_eq!(
        cmds[0].args,
        vec![
            SvgArg::Whole(1),
            SvgArg::Whole(2),
            SvgArg::Whole(3),
            SvgArg::Digit(4, 0),
            SvgArg::Digit(4, 1),
            SvgArg::Whole(5),
            SvgArg::Whole(6),
        ]
    );
    // Other commands still need one token per number.
    assert!(matches!(parse_svg_commands(&words(&["M", "00"])), Some(Err(SvgPathError::Missing(SvgKind::Move)))));
}

#[test]
fn a_number_after_close_never_ends() {
    assert!(parse_svg_commands(&words(&["M", "0", "0", "Z", "5"])).is_none());
    assert!(parse_svg_commands(&words(&["M", "0", "0", "z"])).unwrap().is_ok());
}

#[test]
fn number_tokens_follow_the_float_grammar() {
    for ok in ["1", "-1.5", "+.5", "5.", "1e3", "1E-3", "2.5e+10", "inf", "-Infinity", "NaN"] {
        assert!(is_number_token(ok), "{ok}");
        assert_eq!(ok.parse::<f64>().is_ok(), true);
    }
    for bad in ["", ".", "-", "e5", "1e", "1e+", "1.2.3", "--1", " 1", "1x", "in"] {
        assert!(!is_number_token(bad), "{bad}");
        assert!(bad.parse::<f64>().is_err());
    }
}

fn commands(d: &str) -> (Vec<String>, Vec<burin::svg::SvgCommand>) {
    let (tokens, parsed) = svg_path_commands_of(d);
    (tokens, parsed.unwrap().unwrap())
}

fn arg_text(tokens: &[String], a: SvgArg) -> String {
    match a {
        SvgArg::Whole(i) => tokens[i].clone(),
        SvgArg::Digit(i, k) => tokens[i][k..k + 1].to_string(),
    }
}

#[test]
fn test_error_on_incomplete_coords() {
    let (_, parsed) = svg_path_commands_of("M10");
    assert!(matches!(parsed, Some(Err(SvgPathError::Missing(SvgKind::Move)))));
}

#[test]
fn test_relative_commands() {
    let (tokens, cmds) = commands("M10 10l5 5");
    assert_eq!(cmds.len(), 2);
    assert_eq!((cmds[1].kind, cmds[1].relative), (SvgKind::Line, true));
    let args: Vec<String> = cmds[1].args.iter().map(|a| arg_text(&tokens, *a)).collect();
    assert_eq!(args, vec!["5", "5"]);
}

#[test]
fn test_cubic_bezier() {
    let (tokens, cmds) = commands("M0 0C10 10 20 10 30 0");
    assert_eq!(cmds.len(), 2);
    assert_eq!(cmds[1].kind, SvgKind::Cubic);
    let args: Vec<String> = cmds[1].args.iter().map(|a| arg_text(&tokens, *a)).collect();
    assert_eq!(args, vec!["10", "10", "20", "10", "30", "0"]);
}

#[test]
fn test_quadratic_bezier() {
    let (_, cmds) = commands("M0 0Q10 10 20 0");
    assert_eq!(cmds.len(), 2);
    assert_eq!(cmds[1].kind, SvgKind::Quad);
    assert_eq!(cmds[1].args.len(), 4);
}

#[test]
fn test_arc_to_cubic() {
    let (tokens, cmds) = commands("M10 10A5 5 0 0 1 20 10");
    assert_eq!(cmds.len(), 2);
    assert_eq!((cmds[1].kind, cmds[1].relative), (SvgKind::Arc, false));
    let args: Vec<String> = cmds[1].args.iter().map(|a| arg_text(&tokens, *a)).collect();
    assert_eq!(args, vec!["5", "5", "0", "0", "1", "20", "10"]);
}

#[test]
fn test_minus_as_separator() {
    let (tokens, cmds) = commands("M10-20");
    assert_eq!(cmds.len(), 1);
    assert_eq!(cmds[0].kind, SvgKind::Move);
    let args: Vec<String> = cmds[0].args.iter().map(|a| arg_text(&tokens, *a)).collect();
    assert_eq!(args, vec!["10", "-20"]);
}

#[test]
fn test_scientific_notation() {
    let (tokens, cmds) = commands("M1e2 20");
    assert_eq!(cmds[0].kind, SvgKind::Move);
    let x = arg_text(&tokens, cmds[0].args[0]);
    assert_eq!(x, "1e2");
    assert!((x.parse::<f64>().unwrap() - 100.0).abs() < 0.001);
}

#[test]
fn test_comma_separated() {
    let (tokens, cmds) = commands("M10,20L30,40");
    assert_eq!(cmds.len(), 2);
    assert_eq!(cmds[0].kind, SvgKind::Move);
    assert_eq!(cmds[1].kind, SvgKind::Line);
    let a0: Vec<String> = cmds[0].args.iter().map(|a| arg_text(&tokens, *a)).collect();
    let a1: Vec<String> = cmds[1].args.iter().map(|a| arg_text(&tokens, *a)).collect();
    assert_eq!(a0, vec!["10", "20"]);
    assert_eq!(a1, vec!["30", "40"]);
}

#[test]
fn test_horizontal_vertical() {
    let (tokens, cmds) = commands("M0 0H10V10");
    assert_eq!(cmds.len(), 3);
    assert_eq!(cmds[1].kind, SvgKind::Horizontal);
    assert_eq!(cmds[2].kind, SvgKind::Vertical);
    assert_eq!(arg_text(&tokens, cmds[1].args[0]), "10");
    assert_eq!(arg_text(&tokens, cmds[2].args[0]), "10");
}

#[test]
fn test_all_icons_parse() {
    let icons = [
        Icon::Check, Icon::X, Icon::Plus, Icon::Minus, Icon::Search, Icon::ArrowRight,
        Icon::ArrowLeft, Icon::ArrowUp, Icon::ArrowDown, Icon::Save, Icon::Delete, Icon::Edit,
        Icon::Home, Icon::User, Icon::Settings, Icon::Folder, Icon::File, Icon::Image, Icon::Menu,
        Icon::Refresh, Icon::Mail, Icon::MessageCircle, Icon::Phone, Icon::Link,
        Icon::AlertCircle, Icon::Info, Icon::Play, Icon::Pause, Icon::Volume, Icon::Filter,
    ];
    for icon in icons {
        let d = icon.path_data();
        assert!(!d.is_empty());
        assert!(burin::svg::icon_path_parses(icon), "icon {:?} failed: {}", icon, d);
    }
}
