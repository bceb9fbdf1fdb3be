use burin::path::tokenize_svg_path;

fn toks(d: &str) -> Vec<String> {
    tokenize_svg_path(d)
}

#[test]
fn tokenizes_commands_and_numbers() {
    assert_eq!(toks("M10 20L30 40"), vec!["M", "10", "20", "L", "30", "40"]);
    assert_eq!(toks("M10,20L30,40"), vec!["M", "10", "20", "L", "30", "40"]);
}

#[test]
fn minus_starts_a_new_number() {
    assert_eq!(toks("M10-20"), vec!["M", "10", "-20"]);
}

#[test]
fn second_dot_starts_a_new_number() {
    assert_eq!(toks("M10.5.5"), vec!["M", "10.5", "0.5"]);
}

#[test]
fn exponents_keep_their_sign() {
    assert_eq!(toks("M1e2 20"), vec!["M", "1e2", "20"]);
    assert_eq!(toks("M1e-2,3E+1"), vec!["M", "1e-2", "3E+1"]);
}

#[test]
fn leading_plus_and_stray_characters() {
    assert_eq!(toks("+5 6"), vec!["+5", "6"]);
    // An exponent letter without a number before it is a separator.
    assert_eq!(toks("e5"), vec!["5"]);
}

#[test]
fn empty_and_separator_only_paths_have_no_tokens() {
    assert!(toks("").is_empty());
    assert!(toks(" , \t").is_empty());
}

#[test]
fn close_path_letter_is_its_own_token() {
    assert_eq!(toks("M0 0L10 0L10 10Z"), vec!["M", "0", "0", "L", "10", "0", "L", "10", "10", "Z"]);
}
