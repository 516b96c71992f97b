use kernel_core::filesystem::FSNode;
use kernel_core::keyboard::{handle_scancode, Decoder};
use kernel_core::shell::{Shell, Special};

struct Desk {
    decoder: Decoder,
    shell: Shell,
    root: FSNode,
    cursor: Vec<String>,
}

fn desk() -> Desk {
    Desk {
        decoder: Decoder::new(),
        shell: Shell::new(),
        root: FSNode::new_directory(),
        cursor: Vec::new(),
    }
}

fn press(d: &mut Desk, scancode: u8) -> String {
    let out = handle_scancode(&mut d.decoder, &mut d.shell, &mut d.root, &mut d.cursor, scancode);
    assert_eq!(out.special, Special::Nothing);
    out.text
}

#[test]
fn key_press_types_and_release_does_nothing() {
    let mut d = desk();
    assert_eq!(press(&mut d, 0x1e), "a");
    assert_eq!(press(&mut d, 0x9e), "");
    assert_eq!(press(&mut d, 0x30), "b");
    assert_eq!(d.shell.redraw_line(), "\r$ ab");
}

#[test]
fn shift_makes_capitals() {
    let mut d = desk();
    assert_eq!(press(&mut d, 0x2a), "");
    assert_eq!(press(&mut d, 0x1e), "A");
    assert_eq!(press(&mut d, 0xaa), "");
    assert_eq!(press(&mut d, 0x1e), "a");
}

#[test]
fn extended_keys_edit_the_line() {
    let mut d = desk();
    press(&mut d, 0x1e);
    press(&mut d, 0x30);
    assert_eq!(press(&mut d, 0xe0), "");
    assert_eq!(press(&mut d, 0x47), "\r$ ab\x08\x08");
    assert_eq!(press(&mut d, 0xe0), "");
    assert_eq!(press(&mut d, 0x4f), "\r$ ab");
    assert_eq!(press(&mut d, 0xe0), "");
    assert_eq!(press(&mut d, 0x52), "");
    assert_eq!(d.shell.redraw_line(), "\r$ ab");
}

#[test]
fn arrow_keys_walk_the_history() {
    let mut d = desk();
    press(&mut d, 0x1e);
    assert_eq!(press(&mut d, 0x1c), "\n\nUnknown command: 'a'\n$ ");
    assert_eq!(press(&mut d, 0xe0), "");
    assert_eq!(press(&mut d, 0x48), "\r$ a");
    assert_eq!(press(&mut d, 0xe0), "");
    assert_eq!(press(&mut d, 0x50), "\r$ ");
}

#[test]
fn delete_and_backspace_keys_arrive_as_characters() {
    let mut d = desk();
    assert_eq!(press(&mut d, 0xe0), "");
    assert_eq!(press(&mut d, 0x53), "\u{7f}");
    assert_eq!(press(&mut d, 0x0e), "\u{8}");
    assert_eq!(d.shell.redraw_line(), "\r$ \u{7f}\u{8}");
}

#[test]
fn enter_runs_the_line() {
    let mut d = desk();
    for &code in &[0x19u8, 0x11, 0x20] {
        press(&mut d, code);
    }
    assert_eq!(press(&mut d, 0x1c), "\n\n/\n$ ");
}

#[test]
fn unknown_scancode_does_nothing() {
    let mut d = desk();
    assert_eq!(press(&mut d, 0x7f), "");
    assert_eq!(d.shell.redraw_line(), "\r$ ");
}
