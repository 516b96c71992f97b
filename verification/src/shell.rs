//! The command shell: a line editor with a history, and the commands that it
//! runs on the file store.
//!
//! The shell writes nothing itself. Every operation returns the text that is
//! to be shown, and the caller shows it.

use crate::filesystem::{
    change_directory, create_directory, create_file, directory_changed, get_current_path,
    list_current_directory, listing_of, listing_view, write_file, file_written, FSNode,
};
use crate::names::{order_names, NameOrder};
use crate::path::{components, names_of};
use crate::text::{
    chars_of, contains_char, copy_range, decimal, join_strs, joined, push_decimal, split_words, starts_with, string_from_chars, strs_of, texts_of, trim_range,
    trimmed, words,
};
use crate::tree::Tree;
use vstd::prelude::*;
use vstd::string::{StringExecFns, StringSliceAdditionalSpecFns};

verus! {

/// The line editor's state.
pub struct Shell {
    input_buffer: Vec<char>,
    cursor_position: usize,
    insert_mode: bool,
    command_history: Vec<Vec<char>>,
    history_index: usize,
    timezone_offset: i8,
}

/// `n` times the character that moves the display's cursor one place back.
pub open spec fn backspaces(n: nat) -> Seq<char> {
    Seq::new(n, |i: int| '\x08')
}

/// What the line editor holds.
pub struct Editor {
    /// The line that is being typed.
    pub line: Seq<char>,
    /// Where in the line the next character goes: the number of characters
    /// before it.
    pub cursor: int,
    /// The insert flag, which the insert key switches. Typing inserts at the
    /// cursor whatever the flag says.
    pub inserting: bool,
    /// The lines that were run, oldest first.
    pub history: Seq<Seq<char>>,
    /// How many lines back in the history the editor stands; zero while a new
    /// line is typed.
    pub recalled: int,
    /// The hours that the shell's clock is ahead of UTC.
    pub timezone: int,
}

/// An editor after a key, and the text that the key shows.
pub struct Edited {
    pub editor: Editor,
    pub text: Seq<char>,
}

impl Editor {
    /// The cursor stands in the line or at its end, and the editor stands no
    /// further back than the history goes.
    pub open spec fn wf(self) -> bool {
        &&& 0 <= self.cursor <= self.line.len()
        &&& 0 <= self.recalled <= self.history.len()
    }

    /// What shows the line again: a return to the start of the display's
    /// line, the prompt, the line, and a step back for each character behind
    /// the cursor.
    pub open spec fn redrawn(self) -> Seq<char> {
        seq!['\r', '$', ' '] + self.line + backspaces((self.line.len() - self.cursor) as nat)
    }

    /// This editor, shown again.
    pub open spec fn shown(self) -> Edited {
        Edited { editor: self, text: self.redrawn() }
    }

    /// This editor, with nothing shown.
    pub open spec fn silent(self) -> Edited {
        Edited { editor: self, text: Seq::empty() }
    }

    /// A character goes into the line at the cursor, and is shown by itself.
    pub open spec fn typed(self, c: char) -> Edited {
        Edited {
            editor: Editor {
                line: self.line.insert(self.cursor, c),
                cursor: self.cursor + 1,
                ..self
            },
            text: seq![c],
        }
    }

    /// The character before the cursor leaves the line. At the start of the
    /// line nothing happens.
    pub open spec fn backspace(self) -> Edited {
        if self.cursor > 0 {
            Editor {
                line: self.line.remove(self.cursor - 1),
                cursor: self.cursor - 1,
                ..self
            }.shown()
        } else {
            self.silent()
        }
    }

    /// The character at the cursor leaves the line. At the end of the line
    /// nothing happens.
    pub open spec fn delete(self) -> Edited {
        if self.cursor < self.line.len() {
            Editor { line: self.line.remove(self.cursor), ..self }.shown()
        } else {
            self.silent()
        }
    }

    /// The cursor goes to the start of the line.
    pub open spec fn home(self) -> Edited {
        Editor { cursor: 0, ..self }.shown()
    }

    /// The cursor goes to the end of the line.
    pub open spec fn end(self) -> Edited {
        Editor { cursor: self.line.len() as int, ..self }.shown()
    }

    /// The insert flag switches.
    pub open spec fn toggled(self) -> Editor {
        Editor { inserting: !self.inserting, ..self }
    }

    /// The editor steps one line back in the history: that line becomes the
    /// line being typed, with the cursor at its end. At the oldest line
    /// nothing happens.
    pub open spec fn up(self) -> Edited {
        if self.recalled < self.history.len() {
            let line = self.history[self.history.len() - (self.recalled + 1)];
            Editor {
                line,
                cursor: line.len() as int,
                recalled: self.recalled + 1,
                ..self
            }.shown()
        } else {
            self.silent()
        }
    }

    /// The editor steps one line forward in the history: the next newer
    /// line, or an empty line after the newest, becomes the line being typed,
    /// with the cursor at its end. While a new line is typed nothing happens.
    pub open spec fn down(self) -> Edited {
        if self.recalled > 0 {
            let line = if self.recalled == 1 {
                Seq::empty()
            } else {
                self.history[self.history.len() - (self.recalled - 1)]
            };
            Editor {
                line,
                cursor: line.len() as int,
                recalled: self.recalled - 1,
                ..self
            }.shown()
        } else {
            self.silent()
        }
    }
}

impl View for Shell {
    type V = Editor;

    closed spec fn view(&self) -> Editor {
        Editor {
            line: self.input_buffer@,
            cursor: self.cursor_position as int,
            inserting: self.insert_mode,
            history: Seq::new(
                self.command_history.len() as nat,
                |i: int| self.command_history[i]@,
            ),
            recalled: self.history_index as int,
            timezone: self.timezone_offset as int,
        }
    }
}

impl Shell {
    /// A shell with an empty line and no history, nine hours ahead of UTC.
    pub fn new() -> (shell: Shell)
        ensures
            shell@ == (Editor {
                line: Seq::empty(),
                cursor: 0,
                inserting: true,
                history: Seq::empty(),
                recalled: 0,
                timezone: 9,
            }),
    {
        let shell = Shell {
            input_buffer: Vec::new(),
            cursor_position: 0,
            insert_mode: true,
            command_history: Vec::new(),
            history_index: 0,
            timezone_offset: 9,
        };
        assert(shell@.history =~= Seq::<Seq<char>>::empty());
        shell
    }

    /// The text that shows the line again, with the display's cursor where
    /// the editor's is.
    pub fn redraw_line(&self) -> (text: String)
        requires
            self@.wf(),
        ensures
            text@ == self@.redrawn(),
    {
        proof {
            reveal_strlit("\r$ ");
            reveal_strlit("\x08");
            assert("\r$ "@ =~= seq!['\r', '$', ' ']);
            assert("\x08"@ =~= seq!['\x08']);
        }
        let mut text = String::from_str("\r$ ");
        text.append(string_from_chars(&self.input_buffer).as_str());
        let ghost head = text@;
        let mut i: usize = self.cursor_position;
        while i < self.input_buffer.len()
            invariant
                self.cursor_position <= i <= self.input_buffer.len(),
                "\x08"@ == seq!['\x08'],
                text@ == head + backspaces((i - self.cursor_position) as nat),
            decreases self.input_buffer.len() - i,
        {
            text.append("\x08");
            i += 1;
            assert(text@ =~= head + backspaces((i - self.cursor_position) as nat));
        }
        assert(text@ =~= self@.redrawn());
        text
    }

    /// Removes the character before the cursor, and returns the text that
    /// shows the line again. At the start of the line nothing happens and
    /// nothing is shown.
    pub fn handle_backspace(&mut self) -> (text: String)
        requires
            old(self)@.wf(),
        ensures
            final(self)@.wf(),
            final(self)@ == old(self)@.backspace().editor,
            text@ == old(self)@.backspace().text,
    {
        if self.cursor_position > 0 {
            self.cursor_position -= 1;
            self.input_buffer.remove(self.cursor_position);
            assert(self@.history =~= old(self)@.history);
            self.redraw_line()
        } else {
            String::new()
        }
    }

    /// Removes the character at the cursor, and returns the text that shows
    /// the line again. At the end of the line nothing happens and nothing is
    /// shown.
    pub fn handle_delete(&mut self) -> (text: String)
        requires
            old(self)@.wf(),
        ensures
            final(self)@.wf(),
            final(self)@ == old(self)@.delete().editor,
            text@ == old(self)@.delete().text,
    {
        if self.cursor_position < self.input_buffer.len() {
            self.input_buffer.remove(self.cursor_position);
            assert(self@.history =~= old(self)@.history);
            self.redraw_line()
        } else {
            String::new()
        }
    }

    /// Moves the cursor to the start of the line, and returns the text that
    /// shows the line again.
    pub fn handle_home(&mut self) -> (text: String)
        requires
            old(self)@.wf(),
        ensures
            final(self)@.wf(),
            final(self)@ == old(self)@.home().editor,
            text@ == old(self)@.home().text,
    {
        self.cursor_position = 0;
        assert(self@.history =~= old(self)@.history);
        self.redraw_line()
    }

    /// Moves the cursor to the end of the line, and returns the text that
    /// shows the line again.
    pub fn handle_end(&mut self) -> (text: String)
        requires
            old(self)@.wf(),
        ensures
            final(self)@.wf(),
            final(self)@ == old(self)@.end().editor,
            text@ == old(self)@.end().text,
    {
        self.cursor_position = self.input_buffer.len();
        assert(self@.history =~= old(self)@.history);
        self.redraw_line()
    }

    /// Switches the insert flag.
    pub fn handle_insert(&mut self)
        ensures
            final(self)@ == old(self)@.toggled(),
    {
        self.insert_mode = !self.insert_mode;
        assert(self@.history =~= old(self)@.history);
    }

    /// Steps one line back in the history, and returns the text that shows
    /// the line it finds there. At the oldest line nothing happens and
    /// nothing is shown.
    pub fn history_up(&mut self) -> (text: String)
        requires
            old(self)@.wf(),
        ensures
            final(self)@.wf(),
            final(self)@ == old(self)@.up().editor,
            text@ == old(self)@.up().text,
    {
        if self.history_index < self.command_history.len() {
            self.history_index += 1;
            let index = self.command_history.len() - self.history_index;
            let recalled = &self.command_history[index];
            self.input_buffer = copy_range(recalled, 0, recalled.len());
            self.cursor_position = self.input_buffer.len();
            proof {
                assert(self@.history =~= old(self)@.history);
                assert(self.input_buffer@ =~= self.command_history[index as int]@);
            }
            self.redraw_line()
        } else {
            String::new()
        }
    }

    /// Steps one line forward in the history, and returns the text that
    /// shows the line it finds there: the next newer line, or an empty line
    /// after the newest. While a new line is typed nothing happens and
    /// nothing is shown.
    pub fn history_down(&mut self) -> (text: String)
        requires
            old(self)@.wf(),
        ensures
            final(self)@.wf(),
            final(self)@ == old(self)@.down().editor,
            text@ == old(self)@.down().text,
    {
        if self.history_index > 0 {
            self.history_index -= 1;
            if self.history_index == 0 {
                self.input_buffer.clear();
            } else {
                let index = self.command_history.len() - self.history_index;
                let recalled = &self.command_history[index];
                self.input_buffer = copy_range(recalled, 0, recalled.len());
                proof {
                    assert(self.input_buffer@ =~= self.command_history[index as int]@);
                }
            }
            self.cursor_position = self.input_buffer.len();
            proof {
                assert(self@.history =~= old(self)@.history);
            }
            self.redraw_line()
        } else {
            String::new()
        }
    }
}

/// The text of the `help` command.
pub open spec fn help_text() -> Seq<char> {
    "Available commands:\n"@ + "  help     - Show this help\n"@ + "  clear    - Clear screen\n"@
        + "  history  - Show command history\n"@ + "  exit     - Shutdown the system\n"@
        + "  ls       - List directory contents\n"@ + "  echo     - Display a line of text\n"@
        + "  pwd      - Print working directory\n"@
}

/// The text of a listing: a line for each entry, with a `/` after the name
/// of a directory.
pub open spec fn listing_text(listing: Seq<(Seq<char>, bool)>) -> Seq<char>
    decreases listing.len(),
{
    if listing.len() == 0 {
        Seq::empty()
    } else {
        listing_text(listing.drop_last()) + listing.last().0 + if listing.last().1 {
            "/\n"@
        } else {
            "\n"@
        }
    }
}

/// The text that names the current directory.
pub open spec fn cursor_text(cursor: Seq<Seq<char>>) -> Seq<char> {
    if cursor.len() == 0 {
        "/\n"@
    } else {
        "/"@ + joined(cursor, "/"@) + "\n"@
    }
}

/// `prefix`, then `body`, then the end of the line.
pub open spec fn line_of(prefix: Seq<char>, body: Seq<char>) -> Seq<char> {
    prefix + body + "\n"@
}

/// The line `prefix`, `body`, end of line.
fn make_line(prefix: &str, body: &str) -> (text: String)
    ensures
        text@ == line_of(prefix@, body@),
{
    let mut text = String::from_str(prefix);
    text.append(body);
    text.append("\n");
    text
}

impl Shell {
    /// The text of the `help` command.
    pub fn cmd_help_str(&self) -> (text: String)
        ensures
            text@ == help_text(),
    {
        let mut output = String::from_str("Available commands:\n");
        output.append("  help     - Show this help\n");
        output.append("  clear    - Clear screen\n");
        output.append("  history  - Show command history\n");
        output.append("  exit     - Shutdown the system\n");
        output.append("  ls       - List directory contents\n");
        output.append("  echo     - Display a line of text\n");
        output.append("  pwd      - Print working directory\n");
        output
    }

    /// The text of the `echo` command: its arguments with a space between
    /// each two, and the end of the line.
    pub fn cmd_echo(&self, args: &[&str]) -> (text: String)
        ensures
            text@ == joined(strs_of(args@), " "@) + "\n"@,
    {
        let mut text = join_strs(args, " ");
        text.append("\n");
        text
    }

    /// The text of the `ls` command: the listing of the current directory.
    pub fn cmd_ls(&self, root: &FSNode, current_path: &Vec<String>) -> (text: String)
        requires
            root.wf(),
        ensures
            text@ == listing_text(listing_of(root@.resolve(names_of(current_path@)))),
    {
        let mut output = String::new();
        let entries = list_current_directory(root, current_path);
        let ghost all = listing_view(entries@);
        let mut i: usize = 0;
        while i < entries.len()
            invariant
                i <= entries.len(),
                all == listing_view(entries@),
                output@ == listing_text(all.subrange(0, i as int)),
            decreases entries.len() - i,
        {
            proof {
                let now = all.subrange(0, i + 1);
                assert(now.drop_last() =~= all.subrange(0, i as int));
                assert(now.last() == (entries@[i as int].0@, entries@[i as int].1));
            }
            output.append(entries[i].0.as_str());
            if entries[i].1 {
                output.append("/\n");
            } else {
                output.append("\n");
            }
            i += 1;
        }
        proof {
            assert(all.subrange(0, all.len() as int) =~= all);
        }
        output
    }

    /// The text of the `pwd` command: the names of the cursor after a `/`
    /// each.
    pub fn current_dir_str(&self, current_path: &Vec<String>) -> (text: String)
        ensures
            text@ == cursor_text(names_of(current_path@)),
    {
        let path = get_current_path(current_path);
        if path.len() == 0 {
            String::from_str("/\n")
        } else {
            let mut parts: Vec<&str> = Vec::new();
            let mut i: usize = 0;
            while i < path.len()
                invariant
                    i <= path.len(),
                    parts.len() == i,
                    forall|j: int| 0 <= j < i ==> (#[trigger] parts@[j])@ == path@[j]@,
                decreases path.len() - i,
            {
                parts.push(path[i].as_str());
                i += 1;
            }
            proof {
                assert(strs_of(parts@) =~= names_of(current_path@));
            }
            let mut text = String::from_str("/");
            text.append(join_strs(parts.as_slice(), "/").as_str());
            text.append("\n");
            text
        }
    }
}

/// What a command shows when what it asked of the file store is done:
/// `done` where it went well, and otherwise the message after `failed`.
pub open spec fn report<T>(outcome: Result<T, Seq<char>>, done: Seq<char>, failed: Seq<char>) -> Seq<
    char,
> {
    match outcome {
        Ok(_) => done,
        Err(message) => line_of(failed, message),
    }
}

impl Shell {
    /// Makes the directory `dir_name` and says so, or says why not.
    pub fn cmd_mkdir(&self, root: &mut FSNode, dir_name: &str) -> (text: String)
        requires
            old(root).wf(),
        ensures
            final(root).wf(),
            final(root)@ == match old(root)@.make_dirs(components(dir_name@)) {
                Some(tree) => tree,
                None => old(root)@,
            },
            text@ == match old(root)@.make_dirs(components(dir_name@)) {
                Some(_) => line_of("Directory created: "@, dir_name@),
                None => line_of("mkdir: "@, "Not a directory"@),
            },
    {
        match create_directory(root, dir_name) {
            Ok(_) => make_line("Directory created: ", dir_name),
            Err(e) => make_line("mkdir: ", e),
        }
    }

    /// Makes the empty file `file_name` and says so, or says why not.
    pub fn cmd_touch(&self, root: &mut FSNode, current_path: &Vec<String>, file_name: &str) -> (text:
        String)
        requires
            old(root).wf(),
        ensures
            final(root).wf(),
            final(root)@ == match old(root)@.put_file_at(
                names_of(current_path@),
                components(file_name@),
                Seq::empty(),
            ) {
                Ok(tree) => tree,
                Err(_) => old(root)@,
            },
            text@ == report(
                old(root)@.put_file_at(
                    names_of(current_path@),
                    components(file_name@),
                    Seq::empty(),
                ),
                line_of("File created: "@, file_name@),
                "touch: "@,
            ),
    {
        match create_file(root, current_path, file_name, None) {
            Ok(_) => make_line("File created: ", file_name),
            Err(e) => make_line("touch: ", e),
        }
    }

    /// Changes the current directory, and says why not where it cannot.
    pub fn cmd_cd(&self, root: &FSNode, current_path: &mut Vec<String>, dir_name: &str) -> (text:
        String)
        requires
            root.wf(),
        ensures
            names_of(final(current_path)@) == match directory_changed(
                root@,
                names_of(old(current_path)@),
                dir_name@,
            ) {
                Ok(cursor) => cursor,
                Err(_) => names_of(old(current_path)@),
            },
            text@ == report(
                directory_changed(root@, names_of(old(current_path)@), dir_name@),
                Seq::empty(),
                "cd: "@,
            ),
    {
        match change_directory(root, current_path, dir_name) {
            Ok(_) => String::new(),
            Err(e) => make_line("cd: ", e),
        }
    }

    /// The text of the `pwd` command.
    pub fn cmd_pwd(&self, current_path: &Vec<String>) -> (text: String)
        ensures
            text@ == cursor_text(names_of(current_path@)),
    {
        self.current_dir_str(current_path)
    }

    /// Writes `content` to the file `filename` of the root directory, or
    /// appends it, and says why not where it cannot.
    pub fn write_to_file(&self, root: &mut FSNode, filename: &str, content: &str, append: bool) -> (text:
        String)
        requires
            old(root).wf(),
        ensures
            final(root).wf(),
            final(root)@ == match file_written(
                old(root)@,
                filename@,
                content.spec_bytes(),
                append,
            ) {
                Ok(tree) => tree,
                Err(_) => old(root)@,
            },
            text@ == report(
                file_written(old(root)@, filename@, content.spec_bytes(), append),
                Seq::empty(),
                "Error writing to file: "@,
            ),
    {
        match write_file(root, filename, content.as_bytes(), append) {
            Ok(_) => String::new(),
            Err(e) => make_line("Error writing to file: ", e),
        }
    }
}

/// The text of the `history` command: a line for each line that was run,
/// with its number, counted from zero, before it.
pub open spec fn history_text(history: Seq<Seq<char>>) -> Seq<char>
    decreases history.len(),
{
    if history.len() == 0 {
        Seq::empty()
    } else {
        history_text(history.drop_last()) + decimal((history.len() - 1) as nat) + ": "@
            + history.last() + "\n"@
    }
}

/// The number that two digits of a binary-coded decimal byte stand for.
pub open spec fn from_bcd(byte: u8) -> int {
    (byte / 16) * 10 + byte % 16
}

/// The hour that the clock shows: the hour of the day shifted by the time
/// zone, reduced to less than a day towards zero, and kept in a byte, where a
/// negative hour wraps round.
pub open spec fn shown_hour(hour: int, timezone: int) -> int {
    let shifted = hour + timezone;
    if shifted >= 0 {
        shifted % 24
    } else if (-shifted) % 24 == 0 {
        0
    } else {
        256 - (-shifted) % 24
    }
}

/// The numeral of `n` with at least two digits.
pub open spec fn two_digits(n: nat) -> Seq<char> {
    if n < 10 {
        seq!['0'] + decimal(n)
    } else {
        decimal(n)
    }
}

/// The numeral of `n` with its sign.
pub open spec fn signed(n: int) -> Seq<char> {
    if n >= 0 {
        seq!['+'] + decimal(n as nat)
    } else {
        seq!['-'] + decimal((-n) as nat)
    }
}

/// The text of the `time` command for a clock that reads the binary-coded
/// decimal bytes `hours`, `minutes` and `seconds`.
pub open spec fn time_text(timezone: int, hours: u8, minutes: u8, seconds: u8) -> Seq<char> {
    "Current time (UTC"@ + signed(timezone) + "): "@ + two_digits(
        shown_hour(from_bcd(hours) % 24, timezone) as nat,
    ) + ":"@ + two_digits((from_bcd(minutes) % 60) as nat) + ":"@ + two_digits(
        (from_bcd(seconds) % 60) as nat,
    ) + "\n"@
}

/// Appends the numeral of `n` with at least two digits.
fn push_two_digits(out: &mut Vec<char>, n: u8)
    ensures
        final(out)@ == old(out)@ + two_digits(n as nat),
{
    if n < 10 {
        out.push('0');
    }
    push_decimal(out, n as usize);
    proof {
        assert(out@ =~= old(out)@ + two_digits(n as nat));
    }
}

/// Appends the characters of `s`.
fn push_text(out: &mut String, chars: &Vec<char>)
    ensures
        final(out)@ == old(out)@ + chars@,
{
    out.append(string_from_chars(chars).as_str());
}

impl Shell {
    /// The text of the `history` command.
    pub fn cmd_history(&self) -> (text: String)
        ensures
            text@ == history_text(self@.history),
    {
        let mut text = String::new();
        let mut i: usize = 0;
        while i < self.command_history.len()
            invariant
                i <= self.command_history.len(),
                text@ == history_text(self@.history.subrange(0, i as int)),
            decreases self.command_history.len() - i,
        {
            proof {
                let now = self@.history.subrange(0, i + 1);
                assert(now.drop_last() =~= self@.history.subrange(0, i as int));
                assert(now.last() == self.command_history[i as int]@);
            }
            let mut number: Vec<char> = Vec::new();
            push_decimal(&mut number, i);
            proof {
                assert(number@ =~= decimal(i as nat));
            }
            push_text(&mut text, &number);
            text.append(": ");
            push_text(&mut text, &self.command_history[i]);
            text.append("\n");
            i += 1;
        }
        proof {
            assert(self@.history.subrange(0, self@.history.len() as int) =~= self@.history);
        }
        text
    }

    /// The text of the `time` command for a clock that reads the
    /// binary-coded decimal bytes `hours`, `minutes` and `seconds`.
    pub fn cmd_time(&self, hours: u8, minutes: u8, seconds: u8) -> (text: String)
        ensures
            text@ == time_text(self@.timezone, hours, minutes, seconds),
    {
        let hour: u8 = ((hours / 16) * 10 + hours % 16) % 24;
        let minute: u8 = ((minutes / 16) * 10 + minutes % 16) % 60;
        let second: u8 = ((seconds / 16) * 10 + seconds % 16) % 60;
        let shifted: i16 = hour as i16 + self.timezone_offset as i16;
        let shown: u8 = if shifted >= 0 {
            (shifted % 24) as u8
        } else if (-shifted) % 24 == 0 {
            0
        } else {
            (256 - (-shifted) % 24) as u8
        };
        let mut zone: Vec<char> = Vec::new();
        if self.timezone_offset >= 0 {
            zone.push('+');
            push_decimal(&mut zone, self.timezone_offset as usize);
        } else {
            zone.push('-');
            push_decimal(&mut zone, (-(self.timezone_offset as i16)) as usize);
        }
        proof {
            assert(zone@ =~= signed(self@.timezone));
        }
        let mut h: Vec<char> = Vec::new();
        push_two_digits(&mut h, shown);
        let mut m: Vec<char> = Vec::new();
        push_two_digits(&mut m, minute);
        let mut sec: Vec<char> = Vec::new();
        push_two_digits(&mut sec, second);
        proof {
            assert(h@ =~= two_digits(shown as nat));
            assert(m@ =~= two_digits(minute as nat));
            assert(sec@ =~= two_digits(second as nat));
        }
        let mut text = String::from_str("Current time (UTC");
        push_text(&mut text, &zone);
        text.append("): ");
        push_text(&mut text, &h);
        text.append(":");
        push_text(&mut text, &m);
        text.append(":");
        push_text(&mut text, &sec);
        text.append("\n");
        text
    }
}

/// `word` sends a command's output to a file: `>` or `>>`.
pub open spec fn is_redirect(word: Seq<char>) -> bool {
    word == ">"@ || word == ">>"@
}

/// The position of the first `>` or `>>` among `parts`, or their number if
/// there is none.
pub open spec fn first_redirect(parts: Seq<Seq<char>>) -> int
    decreases parts.len(),
{
    if parts.len() == 0 || is_redirect(parts[0]) {
        0
    } else {
        1 + first_redirect(parts.drop_first())
    }
}

/// Where the first redirect stands, given `k` words before it that are none.
pub proof fn lemma_first_redirect_at(parts: Seq<Seq<char>>, k: int)
    requires
        0 <= k <= parts.len(),
        forall|j: int| 0 <= j < k ==> !is_redirect(parts[j]),
        k < parts.len() ==> is_redirect(parts[k]),
    ensures
        first_redirect(parts) == k,
    decreases k,
{
    if k > 0 {
        let rest = parts.drop_first();
        assert forall|j: int| 0 <= j < k - 1 implies !is_redirect(rest[j]) by {
            assert(rest[j] == parts[j + 1]);
        }
        lemma_first_redirect_at(rest, k - 1);
    }
}

impl Shell {
    /// Parts a command from where its output is to go: returns the words
    /// before the first `>` or `>>`, and that word with the word after it. A
    /// `>` or `>>` that is the last word is left out and sends the output
    /// nowhere.
    pub fn parse_redirects<'a>(&self, parts: &[&'a str]) -> (r: (
        Vec<&'a str>,
        Option<(&'a str, &'a str)>,
    ))
        ensures
            strs_of(r.0@) == strs_of(parts@).subrange(0, first_redirect(strs_of(parts@))),
            first_redirect(strs_of(parts@)) + 1 < parts@.len() ==> (r.1 matches Some(target)
                && target.0@ == parts@[first_redirect(strs_of(parts@))]@ && target.1@
                == parts@[first_redirect(strs_of(parts@)) + 1]@),
            first_redirect(strs_of(parts@)) + 1 >= parts@.len() ==> r.1 is None,
    {
        let mut command: Vec<&'a str> = Vec::new();
        let mut i: usize = 0;
        let ghost words = strs_of(parts@);
        while i < parts.len()
            invariant
                i <= parts.len(),
                words == strs_of(parts@),
                command.len() == i,
                forall|j: int| 0 <= j < i ==> (#[trigger] command@[j])@ == parts@[j]@,
                forall|j: int| 0 <= j < i ==> !is_redirect(#[trigger] words[j]),
            decreases parts.len() - i,
        {
            if order_names(parts[i], ">") == NameOrder::Same || order_names(parts[i], ">>")
                == NameOrder::Same {
                proof {
                    lemma_first_redirect_at(words, i as int);
                    assert(strs_of(command@) =~= words.subrange(0, i as int));
                }
                if i + 1 < parts.len() {
                    return (command, Some((parts[i], parts[i + 1])));
                } else {
                    return (command, None);
                }
            }
            command.push(parts[i]);
            i += 1;
        }
        proof {
            lemma_first_redirect_at(words, i as int);
            assert(strs_of(command@) =~= words.subrange(0, i as int));
        }
        (command, None)
    }
}

/// What a command asks of the caller besides showing text.
#[derive(Clone, Copy, Debug, PartialEq, Eq, Structural)]
pub enum Special {
    /// Nothing.
    Nothing,
    /// The display is to be cleared.
    ClearScreen,
    /// The machine is to be shut down.
    Shutdown,
}

/// What the shell hands back for the caller to do: to show `text`, then to
/// do what `special` says, then to show `rest`. After a shutdown nothing more
/// is shown.
pub struct Output {
    pub text: String,
    pub special: Special,
    pub rest: String,
}

/// What a command does: what it shows, what it asks of the caller, and the
/// file store and the cursor as it leaves them.
pub struct Effect {
    pub text: Seq<char>,
    pub special: Special,
    pub root: Tree,
    pub cursor: Seq<Seq<char>>,
}

/// The effect of a command that shows `text` and changes nothing.
pub open spec fn shows(text: Seq<char>, root: Tree, cursor: Seq<Seq<char>>) -> Effect {
    Effect { text, special: Special::Nothing, root, cursor }
}

/// What the command line `line`, given as its words, does. The first word
/// names the command.
pub open spec fn command_effect(
    line: Seq<Seq<char>>,
    history: Seq<Seq<char>>,
    root: Tree,
    cursor: Seq<Seq<char>>,
) -> Effect
    recommends
        line.len() > 0,
{
    let command = line[0];
    if command == "help"@ {
        shows(help_text(), root, cursor)
    } else if command == "clear"@ {
        Effect { text: Seq::empty(), special: Special::ClearScreen, root, cursor }
    } else if command == "history"@ {
        shows(history_text(history), root, cursor)
    } else if command == "exit"@ {
        Effect { text: "Shutting down...\n"@, special: Special::Shutdown, root, cursor }
    } else if command == "ls"@ {
        shows(listing_text(listing_of(root.resolve(cursor))), root, cursor)
    } else if command == "echo"@ {
        if line.len() > 1 {
            shows(joined(line.subrange(1, line.len() as int), " "@) + "\n"@, root, cursor)
        } else {
            shows(Seq::empty(), root, cursor)
        }
    } else if command == "pwd"@ {
        shows(cursor_text(cursor), root, cursor)
    } else if command == "mkdir"@ {
        if line.len() > 1 {
            match root.make_dirs(components(line[1])) {
                Some(tree) => shows(Seq::empty(), tree, cursor),
                None => shows(line_of("mkdir: "@, "Not a directory"@), root, cursor),
            }
        } else {
            shows("Usage: mkdir <directory>\n"@, root, cursor)
        }
    } else if command == "cd"@ {
        match directory_changed(root, cursor, if line.len() > 1 { line[1] } else { seq!['/'] }) {
            Ok(moved) => shows(Seq::empty(), root, moved),
            Err(message) => shows(line_of("cd: "@, message), root, cursor),
        }
    } else if command == "touch"@ {
        if line.len() > 1 {
            match root.put_file_at(cursor, components(line[1]), Seq::empty()) {
                Ok(tree) => shows(line_of("File created: "@, line[1]), tree, cursor),
                Err(message) => shows(line_of("touch: "@, message), root, cursor),
            }
        } else {
            shows("Usage: touch <filename>\n"@, root, cursor)
        }
    } else {
        shows("Unknown command: '"@ + command + "'\n"@, root, cursor)
    }
}

impl Shell {
    /// Runs the command line `line`, given as its words.
    fn run_command(&self, line: &Vec<String>, root: &mut FSNode, current_path: &mut Vec<String>) -> (r:
        (String, Special))
        requires
            old(root).wf(),
            line.len() > 0,
        ensures
            final(root).wf(),
            ({
                let effect = command_effect(
                    names_of(line@),
                    self@.history,
                    old(root)@,
                    names_of(old(current_path)@),
                );
                &&& r.0@ == effect.text
                &&& r.1 == effect.special
                &&& final(root)@ == effect.root
                &&& names_of(final(current_path)@) == effect.cursor
            }),
    {
        let command = line[0].as_str();
        proof {
            assert(names_of(line@)[0] == command@);
            reveal_strlit("/");
            assert("/"@ =~= seq!['/']);
        }
        if order_names(command, "help") == NameOrder::Same {
            (self.cmd_help_str(), Special::Nothing)
        } else if order_names(command, "clear") == NameOrder::Same {
            (String::new(), Special::ClearScreen)
        } else if order_names(command, "history") == NameOrder::Same {
            (self.cmd_history(), Special::Nothing)
        } else if order_names(command, "exit") == NameOrder::Same {
            (String::from_str("Shutting down...\n"), Special::Shutdown)
        } else if order_names(command, "ls") == NameOrder::Same {
            (self.cmd_ls(root, current_path), Special::Nothing)
        } else if order_names(command, "echo") == NameOrder::Same {
            if line.len() > 1 {
                let mut args: Vec<&str> = Vec::new();
                let mut i: usize = 1;
                while i < line.len()
                    invariant
                        1 <= i <= line.len(),
                        args.len() == i - 1,
                        forall|j: int| 0 <= j < i - 1 ==> (#[trigger] args@[j])@ == line@[j + 1]@,
                    decreases line.len() - i,
                {
                    args.push(line[i].as_str());
                    i += 1;
                }
                proof {
                    assert(strs_of(args@) =~= names_of(line@).subrange(1, line@.len() as int));
                }
                (self.cmd_echo(args.as_slice()), Special::Nothing)
            } else {
                (String::new(), Special::Nothing)
            }
        } else if order_names(command, "pwd") == NameOrder::Same {
            (self.current_dir_str(current_path), Special::Nothing)
        } else if order_names(command, "mkdir") == NameOrder::Same {
            if line.len() > 1 {
                proof {
                    assert(names_of(line@)[1] == line@[1]@);
                }
                match create_directory(root, line[1].as_str()) {
                    Ok(_) => (String::new(), Special::Nothing),
                    Err(e) => (make_line("mkdir: ", e), Special::Nothing),
                }
            } else {
                (String::from_str("Usage: mkdir <directory>\n"), Special::Nothing)
            }
        } else if order_names(command, "cd") == NameOrder::Same {
            let target = if line.len() > 1 {
                proof {
                    assert(names_of(line@)[1] == line@[1]@);
                }
                line[1].as_str()
            } else {
                "/"
            };
            (self.cmd_cd(root, current_path, target), Special::Nothing)
        } else if order_names(command, "touch") == NameOrder::Same {
            if line.len() > 1 {
                proof {
                    assert(names_of(line@)[1] == line@[1]@);
                }
                (self.cmd_touch(root, current_path, line[1].as_str()), Special::Nothing)
            } else {
                (String::from_str("Usage: touch <filename>\n"), Special::Nothing)
            }
        } else {
            let mut text = String::from_str("Unknown command: '");
            text.append(command);
            text.append("'\n");
            (text, Special::Nothing)
        }
    }
}

/// A key as the shell takes it.
#[derive(Clone, Copy, Debug, PartialEq, Eq, Structural)]
pub enum Key {
    /// A character; the end of the line runs the line.
    Unicode(char),
    Backspace,
    Delete,
    Home,
    End,
    Insert,
    ArrowUp,
    ArrowDown,
    /// Any other key. The shell does nothing on it.
    Other,
}

/// What a key leaves: what is shown, what is asked of the caller, the
/// editor, the file store and the cursor.
pub struct Run {
    pub text: Seq<char>,
    pub special: Special,
    pub rest: Seq<char>,
    pub editor: Editor,
    pub root: Tree,
    pub cursor: Seq<Seq<char>>,
}

/// What an editing key leaves: the file store and the cursor as they are.
pub open spec fn edits(edited: Edited, root: Tree, cursor: Seq<Seq<char>>) -> Run {
    Run {
        text: edited.text,
        special: Special::Nothing,
        rest: Seq::empty(),
        editor: edited.editor,
        root,
        cursor,
    }
}

/// What running the line of `editor` does. A line without words only gives
/// way to a new prompt. A line with words runs as a command, joins the
/// history and gives way to a new prompt; but after `exit` the editor stays
/// as it is, for the machine stops.
pub open spec fn run_of(editor: Editor, root: Tree, cursor: Seq<Seq<char>>) -> Run {
    let cleared = Editor { line: Seq::empty(), cursor: 0, ..editor };
    if words(editor.line).len() == 0 {
        Run {
            text: "\n"@ + "$ "@,
            special: Special::Nothing,
            rest: Seq::empty(),
            editor: cleared,
            root,
            cursor,
        }
    } else {
        let effect = command_effect(words(editor.line), editor.history, root, cursor);
        let kept = Editor { history: editor.history.push(editor.line), ..cleared };
        match effect.special {
            Special::Shutdown => Run {
                text: "\n"@ + effect.text,
                special: Special::Shutdown,
                rest: Seq::empty(),
                editor,
                root: effect.root,
                cursor: effect.cursor,
            },
            Special::ClearScreen => Run {
                text: "\n"@ + effect.text,
                special: Special::ClearScreen,
                rest: "$ "@ + "$ "@,
                editor: kept,
                root: effect.root,
                cursor: effect.cursor,
            },
            Special::Nothing => Run {
                text: "\n"@ + effect.text + "$ "@,
                special: Special::Nothing,
                rest: Seq::empty(),
                editor: kept,
                root: effect.root,
                cursor: effect.cursor,
            },
        }
    }
}

/// What the key `key` does.
pub open spec fn key_effect(editor: Editor, key: Key, root: Tree, cursor: Seq<Seq<char>>) -> Run {
    match key {
        Key::Unicode(c) => {
            if c == '\n' {
                let run = run_of(editor, root, cursor);
                Run { text: "\n"@ + run.text, ..run }
            } else {
                edits(editor.typed(c), root, cursor)
            }
        },
        Key::Backspace => edits(editor.backspace(), root, cursor),
        Key::Delete => edits(editor.delete(), root, cursor),
        Key::Home => edits(editor.home(), root, cursor),
        Key::End => edits(editor.end(), root, cursor),
        Key::Insert => edits(editor.toggled().silent(), root, cursor),
        Key::ArrowUp => edits(editor.up(), root, cursor),
        Key::ArrowDown => edits(editor.down(), root, cursor),
        Key::Other => edits(editor.silent(), root, cursor),
    }
}

/// An output that only shows `text`.
fn only_text(text: String) -> (out: Output)
    ensures
        out.text@ == text@,
        out.special == Special::Nothing,
        out.rest@ == Seq::<char>::empty(),
{
    Output { text, special: Special::Nothing, rest: String::new() }
}

impl Shell {
    /// Runs the line that was typed, and returns what is to be shown.
    pub fn execute_command(&mut self, root: &mut FSNode, current_path: &mut Vec<String>) -> (out:
        Output)
        requires
            old(self)@.wf(),
            old(root).wf(),
        ensures
            final(self)@.wf(),
            final(root).wf(),
            ({
                let run = run_of(old(self)@, old(root)@, names_of(old(current_path)@));
                &&& out.text@ == run.text
                &&& out.special == run.special
                &&& out.rest@ == run.rest
                &&& final(self)@ == run.editor
                &&& final(root)@ == run.root
                &&& names_of(final(current_path)@) == run.cursor
            }),
    {
        let parts = split_words(&self.input_buffer);
        let mut text = String::from_str("\n");
        let mut rest = String::new();
        let mut special = Special::Nothing;
        if parts.len() > 0 {
            let mut line: Vec<String> = Vec::new();
            let mut i: usize = 0;
            while i < parts.len()
                invariant
                    i <= parts.len(),
                    line.len() == i,
                    forall|j: int| 0 <= j < i ==> (#[trigger] line@[j])@ == parts@[j]@,
                decreases parts.len() - i,
            {
                line.push(string_from_chars(&parts[i]));
                i += 1;
            }
            proof {
                assert(names_of(line@) =~= texts_of(parts@));
            }
            let (shown, asked) = self.run_command(&line, root, current_path);
            text.append(shown.as_str());
            special = asked;
            if special == Special::Shutdown {
                return Output { text, special, rest };
            }
            if special == Special::ClearScreen {
                rest.append("$ ");
            }
            let typed = copy_range(&self.input_buffer, 0, self.input_buffer.len());
            let ghost before = self@.history;
            self.command_history.push(typed);
            proof {
                assert(typed@ =~= old(self)@.line);
                assert(self@.history =~= before.push(old(self)@.line));
            }
        }
        self.input_buffer.clear();
        self.cursor_position = 0;
        if special == Special::ClearScreen {
            rest.append("$ ");
            proof {
                assert(rest@ =~= "$ "@ + "$ "@);
            }
        } else {
            text.append("$ ");
        }
        proof {
            if parts.len() == 0 {
                assert(self@.history =~= old(self)@.history);
            }
        }
        Output { text, special, rest }
    }

    /// Takes a key: a character goes into the line at the cursor and is
    /// shown, the end of the line runs the line, and the editing keys do
    /// their work. Returns what is to be shown.
    pub fn handle_key(&mut self, key: Key, root: &mut FSNode, current_path: &mut Vec<String>) -> (out:
        Output)
        requires
            old(self)@.wf(),
            old(root).wf(),
        ensures
            final(self)@.wf(),
            final(root).wf(),
            ({
                let run = key_effect(old(self)@, key, old(root)@, names_of(old(current_path)@));
                &&& out.text@ == run.text
                &&& out.special == run.special
                &&& out.rest@ == run.rest
                &&& final(self)@ == run.editor
                &&& final(root)@ == run.root
                &&& names_of(final(current_path)@) == run.cursor
            }),
    {
        match key {
            Key::Unicode(c) => {
                if c == '\n' {
                    let run = self.execute_command(root, current_path);
                    let mut text = String::from_str("\n");
                    text.append(run.text.as_str());
                    Output { text, special: run.special, rest: run.rest }
                } else {
                    self.input_buffer.insert(self.cursor_position, c);
                    assert(self.cursor_position < self.input_buffer.len());
                    self.cursor_position += 1;
                    let mut typed: Vec<char> = Vec::new();
                    typed.push(c);
                    proof {
                        assert(self@.history =~= old(self)@.history);
                        assert(typed@ =~= seq![c]);
                    }
                    only_text(string_from_chars(&typed))
                }
            },
            Key::Backspace => only_text(self.handle_backspace()),
            Key::Delete => only_text(self.handle_delete()),
            Key::Home => only_text(self.handle_home()),
            Key::End => only_text(self.handle_end()),
            Key::Insert => {
                self.handle_insert();
                only_text(String::new())
            },
            Key::ArrowUp => only_text(self.history_up()),
            Key::ArrowDown => only_text(self.history_down()),
            Key::Other => only_text(String::new()),
        }
    }
}

/// The commands that the shell completes, in the order in which it offers
/// them.
pub open spec fn commands() -> Seq<Seq<char>> {
    seq![
        "help"@,
        "clear"@,
        "ls"@,
        "cd"@,
        "pwd"@,
        "time"@,
        "mkdir"@,
        "touch"@,
        "exit"@,
    ]
}

/// `command` takes the name of a file or directory.
pub open spec fn takes_name(command: Seq<char>) -> bool {
    command == "cd"@ || command == "ls"@ || command == "touch"@ || command == "mkdir"@
}

/// Those of `names` that begin with `prefix`, each after `lead`.
pub open spec fn completed(names: Seq<Seq<char>>, prefix: Seq<char>, lead: Seq<char>) -> Seq<
    Seq<char>,
>
    decreases names.len(),
{
    if names.len() == 0 {
        Seq::empty()
    } else {
        let before = completed(names.drop_last(), prefix, lead);
        if prefix.is_prefix_of(names.last()) {
            before.push(lead + names.last())
        } else {
            before
        }
    }
}

/// The names of a listing.
pub open spec fn listed_names(listing: Seq<(Seq<char>, bool)>) -> Seq<Seq<char>> {
    Seq::new(listing.len(), |i: int| listing[i].0)
}

/// The lines that complete `input`: the commands that begin with it, and,
/// where it holds a space and is a command that takes a name followed by the
/// start of a name, this command with each entry of the listing that begins
/// so.
pub open spec fn candidates(input: Seq<char>, listing: Seq<(Seq<char>, bool)>) -> Seq<Seq<char>> {
    let line = words(input);
    completed(commands(), input, Seq::empty()) + if input.contains(' ') && line.len() > 1
        && takes_name(line[0]) {
        completed(listed_names(listing), line[1], line[0] + " "@)
    } else {
        Seq::empty()
    }
}

/// What shows a choice of completions: each on a line, and the prompt with
/// the line as it stands.
pub open spec fn choice_text(choice: Seq<Seq<char>>) -> Seq<char>
    decreases choice.len(),
{
    if choice.len() == 0 {
        Seq::empty()
    } else {
        choice_text(choice.drop_last()) + choice.last() + "\n"@
    }
}

impl Editor {
    /// What the tabulator key does: it completes what stands before the
    /// cursor, without the white space around it. Where nothing stands
    /// there, the commands are shown; where one line completes it, this
    /// becomes the line; where several do, they are shown.
    pub open spec fn tab(self, listing: Seq<(Seq<char>, bool)>) -> Edited {
        let input = trimmed(self.line.subrange(0, self.cursor));
        let found = candidates(input, listing);
        if input.len() == 0 {
            Edited {
                editor: self,
                text: "\nAvailable commands:\n"@ + help_text() + "$ "@,
            }
        } else if found.len() == 0 {
            self.silent()
        } else if found.len() == 1 {
            Editor { line: found[0], cursor: found[0].len() as int, ..self }.shown()
        } else {
            Edited {
                editor: self,
                text: "\nPossible completions:\n"@ + choice_text(found) + "$ "@ + self.line,
            }
        }
    }
}

/// Appends to `found` those of `names` that begin with `prefix`, each after
/// `lead`.
fn complete(found: &mut Vec<String>, names: &Vec<String>, prefix: &Vec<char>, lead: &str)
    ensures
        names_of(final(found)@) == names_of(old(found)@) + completed(
            names_of(names@),
            prefix@,
            lead@,
        ),
{
    let mut i: usize = 0;
    proof {
        assert(names_of(found@) + Seq::<Seq<char>>::empty() =~= names_of(found@));
    }
    while i < names.len()
        invariant
            i <= names.len(),
            names_of(found@) == names_of(old(found)@) + completed(
                names_of(names@).subrange(0, i as int),
                prefix@,
                lead@,
            ),
        decreases names.len() - i,
    {
        let ghost before = names_of(found@);
        let ghost done = completed(names_of(names@).subrange(0, i as int), prefix@, lead@);
        proof {
            let now = names_of(names@).subrange(0, i + 1);
            assert(now.drop_last() =~= names_of(names@).subrange(0, i as int));
            assert(now.last() == names@[i as int]@);
        }
        let name = chars_of(names[i].as_str());
        if starts_with(&name, prefix) {
            let mut line = String::from_str(lead);
            line.append(names[i].as_str());
            found.push(line);
            proof {
                assert(names_of(found@) =~= before.push(lead@ + names@[i as int]@));
                assert(before.push(lead@ + names@[i as int]@) =~= names_of(old(found)@)
                    + done.push(lead@ + names@[i as int]@));
            }
        }
        i += 1;
    }
    proof {
        assert(names_of(names@).subrange(0, names@.len() as int) =~= names_of(names@));
    }
}

impl Shell {
    /// Tells whether `command` takes the name of a file or directory.
    fn takes_name(&self, command: &Vec<char>) -> (r: bool)
        ensures
            r == takes_name(command@),
    {
        let command = string_from_chars(command);
        order_names(command.as_str(), "cd") == NameOrder::Same || order_names(
            command.as_str(),
            "ls",
        ) == NameOrder::Same || order_names(command.as_str(), "touch") == NameOrder::Same
            || order_names(command.as_str(), "mkdir") == NameOrder::Same
    }

    /// The lines that complete `input`.
    pub fn get_completion_candidates(
        &self,
        input: &str,
        root: &FSNode,
        current_path: &Vec<String>,
    ) -> (found: Vec<String>)
        requires
            root.wf(),
        ensures
            names_of(found@) == candidates(
                input@,
                listing_of(root@.resolve(names_of(current_path@))),
            ),
    {
        let mut found: Vec<String> = Vec::new();
        let typed = chars_of(input);
        let mut known: Vec<String> = Vec::new();
        known.push(String::from_str("help"));
        known.push(String::from_str("clear"));
        known.push(String::from_str("ls"));
        known.push(String::from_str("cd"));
        known.push(String::from_str("pwd"));
        known.push(String::from_str("time"));
        known.push(String::from_str("mkdir"));
        known.push(String::from_str("touch"));
        known.push(String::from_str("exit"));
        proof {
            assert(names_of(known@) =~= commands());
            assert(names_of(found@) =~= Seq::<Seq<char>>::empty());
        }
        complete(&mut found, &known, &typed, "");
        proof {
            reveal_strlit("");
            assert(""@ =~= Seq::<char>::empty());
            assert(names_of(found@) =~= completed(commands(), input@, Seq::empty()));
        }
        let ghost first = names_of(found@);
        if contains_char(&typed, ' ') {
            let parts = split_words(&typed);
            if parts.len() > 1 && self.takes_name(&parts[0]) {
                let command = string_from_chars(&parts[0]);
                let files = list_current_directory(root, current_path);
                let mut names: Vec<String> = Vec::new();
                let mut i: usize = 0;
                while i < files.len()
                    invariant
                        i <= files.len(),
                        names.len() == i,
                        forall|j: int| 0 <= j < i ==> (#[trigger] names@[j])@ == files@[j].0@,
                    decreases files.len() - i,
                {
                    names.push(files[i].0.clone());
                    i += 1;
                }
                let mut lead = command;
                lead.append(" ");
                proof {
                    assert(names_of(names@) =~= listed_names(listing_view(files@)));
                    assert(words(input@)[1] == parts@[1]@);
                }
                complete(&mut found, &names, &parts[1], lead.as_str());
                return found;
            }
        }
        proof {
            assert(first + Seq::<Seq<char>>::empty() =~= first);
        }
        found
    }

    /// Completes what stands before the cursor, and returns what is to be
    /// shown.
    pub fn handle_tab(&mut self, root: &FSNode, current_path: &Vec<String>) -> (text: String)
        requires
            old(self)@.wf(),
            root.wf(),
        ensures
            final(self)@.wf(),
            final(self)@ == old(self)@.tab(
                listing_of(root@.resolve(names_of(current_path@))),
            ).editor,
            text@ == old(self)@.tab(listing_of(root@.resolve(names_of(current_path@)))).text,
    {
        let input = trim_range(&self.input_buffer, 0, self.cursor_position);
        if input.len() == 0 {
            let mut text = String::from_str("\nAvailable commands:\n");
            text.append(self.cmd_help_str().as_str());
            text.append("$ ");
            return text;
        }
        let found = self.get_completion_candidates(
            string_from_chars(&input).as_str(),
            root,
            current_path,
        );
        if found.len() == 0 {
            String::new()
        } else if found.len() == 1 {
            self.input_buffer = chars_of(found[0].as_str());
            self.cursor_position = self.input_buffer.len();
            proof {
                assert(self@.history =~= old(self)@.history);
            }
            self.redraw_line()
        } else {
            let mut text = String::from_str("\nPossible completions:\n");
            let ghost head = text@;
            let mut i: usize = 0;
            while i < found.len()
                invariant
                    i <= found.len(),
                    text@ == head + choice_text(names_of(found@).subrange(0, i as int)),
                decreases found.len() - i,
            {
                proof {
                    let now = names_of(found@).subrange(0, i + 1);
                    assert(now.drop_last() =~= names_of(found@).subrange(0, i as int));
                    assert(now.last() == found@[i as int]@);
                }
                text.append(found[i].as_str());
                text.append("\n");
                i += 1;
                proof {
                    assert(text@ =~= head + choice_text(names_of(found@).subrange(0, i as int)));
                }
            }
            proof {
                assert(names_of(found@).subrange(0, found@.len() as int) =~= names_of(found@));
            }
            text.append("$ ");
            text.append(string_from_chars(&self.input_buffer).as_str());
            text
        }
    }
}

} // verus!
