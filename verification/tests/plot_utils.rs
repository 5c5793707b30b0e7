use hpo_insight::plot::utils::normalize_filename;

#[test]
fn letters_become_lower_case() {
    assert_eq!(normalize_filename("Sphere"), "sphere");
    assert_eq!(normalize_filename("ABCxyz019"), "abcxyz019");
}

#[test]
fn other_characters_become_one_dash() {
    assert_eq!(normalize_filename("Hello, World"), "hello-world");
    assert_eq!(normalize_filename("a / b \\ c"), "a-b-c");
    assert_eq!(normalize_filename("rosenbrock(dim=10)"), "rosenbrock-dim-10");
}

#[test]
fn dashes_at_the_ends_are_left_out() {
    assert_eq!(normalize_filename("--a__b--"), "a-b");
    assert_eq!(normalize_filename("(x)"), "x");
    assert_eq!(normalize_filename("x!"), "x");
    assert_eq!(normalize_filename("!x"), "x");
}

#[test]
fn nothing_but_other_characters_gives_the_empty_name() {
    assert_eq!(normalize_filename(""), "");
    assert_eq!(normalize_filename("-"), "");
    assert_eq!(normalize_filename("#?!"), "");
}

#[test]
fn characters_outside_ascii_count_as_other() {
    assert_eq!(normalize_filename("caf\u{e9} M\u{dc}NCHEN"), "caf-m-nchen");
    assert_eq!(normalize_filename("\u{3b1}\u{3b2}"), "");
}
