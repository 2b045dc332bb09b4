use hannos::shell::{Key, Shell, ShellError};

fn text(v: Vec<char>) -> String {
    v.into_iter().collect()
}

fn type_line(sh: &mut Shell, line: &str) -> String {
    let mut out = String::new();
    for c in line.chars() {
        out.push_str(&text(sh.handle_keypress(Key::Unicode(c))));
    }
    out
}

#[test]
fn typing_redraws_the_line() {
    let mut sh = Shell::new();
    assert_eq!(text(sh.render_input_line()), "\r>  ");
    assert_eq!(text(sh.handle_keypress(Key::Unicode('a'))), "\r> a ");
    assert_eq!(text(sh.handle_keypress(Key::Unicode('b'))), "\r> ab ");
}

#[test]
fn echo_prints_its_arguments() {
    let mut sh = Shell::new();
    type_line(&mut sh, "  echo  hello   world ");
    let out = text(sh.handle_keypress(Key::Unicode('\n')));
    assert_eq!(out, "\nhello world\n\r>  ");
}

#[test]
fn help_and_clear() {
    let mut sh = Shell::new();
    type_line(&mut sh, "help");
    let out = text(sh.handle_keypress(Key::Unicode('\n')));
    assert_eq!(out, "\nAvailable commands:\n  echo\n  help\n  clear\n\r>  ");
    type_line(&mut sh, "clear");
    let out = text(sh.handle_keypress(Key::Unicode('\n')));
    assert_eq!(out, format!("\n{}\r>  ", "\n".repeat(100)));
}

#[test]
fn unknown_command_is_reported() {
    let mut sh = Shell::new();
    type_line(&mut sh, "frob x");
    let out = text(sh.handle_keypress(Key::Unicode('\n')));
    assert_eq!(out, "\ncommand not found: frob\n\r>  ");
    let err = ShellError::CommandNotFound(vec!['l', 's']);
    assert_eq!(text(err.message()), "command not found: ls");
}

#[test]
fn empty_line_prints_newline_only() {
    let mut sh = Shell::new();
    assert_eq!(text(sh.handle_keypress(Key::Unicode('\n'))), "\n\r>  ");
    assert_eq!(text(sh.handle_keypress(Key::ArrowUp)), "\r>  ");
}

#[test]
fn cursor_editing() {
    let mut sh = Shell::new();
    type_line(&mut sh, "ac");
    sh.handle_keypress(Key::ArrowLeft);
    assert_eq!(text(sh.handle_keypress(Key::Unicode('b'))), "\r> abc ");
    sh.handle_keypress(Key::ArrowLeft);
    sh.handle_keypress(Key::ArrowLeft);
    sh.handle_keypress(Key::ArrowLeft);
    assert_eq!(text(sh.handle_keypress(Key::Unicode('\u{8}'))), "\r> abc ");
    sh.handle_keypress(Key::ArrowRight);
    assert_eq!(text(sh.handle_keypress(Key::Unicode('\u{8}'))), "\r> bc ");
    for _ in 0..5 {
        sh.handle_keypress(Key::ArrowRight);
    }
    assert_eq!(text(sh.handle_keypress(Key::Unicode('d'))), "\r> bcd ");
    assert_eq!(text(sh.handle_keypress(Key::Other)), "\r> bcd ");
}

#[test]
fn history_walks_back_and_forth() {
    let mut sh = Shell::new();
    type_line(&mut sh, "echo one\n");
    type_line(&mut sh, "echo two\n");
    assert_eq!(text(sh.handle_keypress(Key::ArrowUp)), "\r> \r\r> echo two ");
    assert_eq!(
        text(sh.handle_keypress(Key::ArrowUp)),
        "\r>         \r\r> echo one "
    );
    assert_eq!(text(sh.handle_keypress(Key::ArrowUp)), "\r> echo one ");
    assert_eq!(
        text(sh.handle_keypress(Key::ArrowDown)),
        "\r>         \r\r> echo two "
    );
    assert_eq!(
        text(sh.handle_keypress(Key::ArrowDown)),
        "\r>         \r\r>  "
    );
    assert_eq!(text(sh.handle_keypress(Key::ArrowDown)), "\r>  ");
}
