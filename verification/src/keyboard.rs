//! From the keyboard's bytes to the shell's keys.

use crate::filesystem::FSNode;
use crate::path::names_of;
use crate::shell::{key_effect, Editor, Key, Output, Run, Shell};
use crate::tree::Tree;
use pc_keyboard::layouts::Us104Key;
use pc_keyboard::{DecodedKey, HandleControl, KeyCode, KeyEvent, Keyboard, ScancodeSet1};
use vstd::prelude::*;

verus! {

/// `pc_keyboard::KeyEvent`: a key that went down or up. It is handed from
/// one call of the decoder to the next, and never looked into.
#[verifier::external_type_specification]
#[verifier::external_body]
pub struct ExKeyEvent(KeyEvent);

/// The decoder of a US keyboard that sends scancode set 1: a
/// `pc_keyboard::Keyboard`, which keeps what the bytes so far have left
/// open and which modifier keys are held.
#[verifier::external_body]
pub struct Decoder {
    keyboard: Keyboard<Us104Key, ScancodeSet1>,
}

/// `Keyboard::new`: a decoder that has seen no byte, and that leaves the
/// control key to the caller.
#[verifier::external_body]
fn new_keyboard() -> (decoder: Decoder) {
    Decoder { keyboard: Keyboard::new(Us104Key, ScancodeSet1, HandleControl::Ignore) }
}

impl Decoder {
    /// A decoder that has seen no byte.
    pub fn new() -> (decoder: Decoder) {
        new_keyboard()
    }
}

/// The key event that `Keyboard::add_byte` gives on this decoder for this
/// byte: the event that the byte completes, if it completes one.
pub uninterp spec fn event_of(decoder: Decoder, scancode: u8) -> Option<KeyEvent>;

/// The key that `Keyboard::process_keyevent` gives on this decoder for this
/// key event, as the shell takes it, if the event stands for a key.
pub uninterp spec fn key_of(decoder: Decoder, event: KeyEvent) -> Option<Key>;

/// `Keyboard::add_byte`: takes a byte from the keyboard, and returns the key
/// event that it completes, if it completes one. A byte that the decoder
/// does not know gives none.
#[verifier::external_body]
fn key_event(decoder: &mut Decoder, scancode: u8) -> (event: Option<KeyEvent>)
    ensures
        event == event_of(*old(decoder), scancode),
{
    decoder.keyboard.add_byte(scancode).ok().flatten()
}

/// `Keyboard::process_keyevent`: takes a key event, and returns the key that
/// it stands for with the modifier keys as they are, if it stands for one.
/// Of the keys that are no characters the shell tells seven apart.
#[verifier::external_body]
fn decoded_key(decoder: &mut Decoder, event: KeyEvent) -> (key: Option<Key>)
    ensures
        key == key_of(*old(decoder), event),
{
    match decoder.keyboard.process_keyevent(event)? {
        DecodedKey::Unicode(c) => Some(Key::Unicode(c)),
        DecodedKey::RawKey(KeyCode::Backspace) => Some(Key::Backspace),
        DecodedKey::RawKey(KeyCode::Delete) => Some(Key::Delete),
        DecodedKey::RawKey(KeyCode::Home) => Some(Key::Home),
        DecodedKey::RawKey(KeyCode::End) => Some(Key::End),
        DecodedKey::RawKey(KeyCode::Insert) => Some(Key::Insert),
        DecodedKey::RawKey(KeyCode::ArrowUp) => Some(Key::ArrowUp),
        DecodedKey::RawKey(KeyCode::ArrowDown) => Some(Key::ArrowDown),
        DecodedKey::RawKey(_) => Some(Key::Other),
    }
}

/// `out`, `editor`, `root` and `cursor` are what `run` leaves.
pub open spec fn left_by(
    run: Run,
    out: Output,
    editor: Editor,
    root: Tree,
    cursor: Seq<Seq<char>>,
) -> bool {
    &&& out.text@ == run.text
    &&& out.special == run.special
    &&& out.rest@ == run.rest
    &&& editor == run.editor
    &&& root == run.root
    &&& cursor == run.cursor
}

/// The key that the shell takes where the decoder gives `key`: a byte or an
/// event that stands for no key counts as a key that the shell does nothing
/// on.
pub open spec fn key_taken(key: Option<Key>) -> Key {
    match key {
        Some(key) => key,
        None => Key::Other,
    }
}

/// Takes a byte from the keyboard. Where the byte completes a key event, the
/// shell takes the key that the decoder, as the byte has left it, gives for
/// the event; where it completes none, nothing happens. Returns what is to be
/// shown.
pub fn handle_scancode(
    decoder: &mut Decoder,
    shell: &mut Shell,
    root: &mut FSNode,
    current_path: &mut Vec<String>,
    scancode: u8,
) -> (out: Output)
    requires
        old(shell)@.wf(),
        old(root).wf(),
    ensures
        final(shell)@.wf(),
        final(root).wf(),
        match event_of(*old(decoder), scancode) {
            Some(event) => exists|after_byte: Decoder|
                left_by(
                    key_effect(
                        old(shell)@,
                        key_taken(#[trigger] key_of(after_byte, event)),
                        old(root)@,
                        names_of(old(current_path)@),
                    ),
                    out,
                    final(shell)@,
                    final(root)@,
                    names_of(final(current_path)@),
                ),
            None => left_by(
                key_effect(old(shell)@, Key::Other, old(root)@, names_of(old(current_path)@)),
                out,
                final(shell)@,
                final(root)@,
                names_of(final(current_path)@),
            ),
        },
{
    let key = match key_event(decoder, scancode) {
        Some(event) => {
            let ghost after_byte = *decoder;
            let key = decoded_key(decoder, event);
            proof {
                assert(key == key_of(after_byte, event));
            }
            match key {
                Some(key) => key,
                None => Key::Other,
            }
        },
        None => Key::Other,
    };
    shell.handle_key(key, root, current_path)
}

} // verus!
