use tiling::render::to_ansi;

#[test]
fn ansi_colours_digits() {
    assert_eq!(to_ansi("0".to_string()), "\x1b[40m  \x1b[0m\n");
    assert_eq!(to_ansi("7".to_string()), "\x1b[47m  \x1b[0m\n");
    assert_eq!(to_ansi("8".to_string()), "\x1b[100m  \x1b[0m\n");
    assert_eq!(to_ansi("f".to_string()), "\x1b[107m  \x1b[0m\n");
    assert_eq!(to_ansi("B".to_string()), "\x1b[103m  \x1b[0m\n");
}

#[test]
fn ansi_resets_each_line() {
    assert_eq!(
        to_ansi("01\n2x".to_string()),
        "\x1b[40m  \x1b[41m  \x1b[0m\n\x1b[42m  x\x1b[0m\n"
    );
    assert_eq!(to_ansi(String::new()), "\x1b[0m\n");
}
