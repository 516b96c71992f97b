use kernel_core::filesystem::{create_directory, read_file, write_file, FSNode};
use kernel_core::shell::{Key, Output, Shell, Special};

struct World {
    shell: Shell,
    root: FSNode,
    cursor: Vec<String>,
}

fn world() -> World {
    World { shell: Shell::new(), root: FSNode::new_directory(), cursor: Vec::new() }
}

fn key(w: &mut World, key: Key) -> Output {
    w.shell.handle_key(key, &mut w.root, &mut w.cursor)
}

fn type_text(w: &mut World, text: &str) -> String {
    let mut shown = String::new();
    for c in text.chars() {
        let out = key(w, Key::Unicode(c));
        assert_eq!(out.special, Special::Nothing);
        assert_eq!(out.rest, "");
        shown.push_str(&out.text);
    }
    shown
}

fn run(w: &mut World, line: &str) -> Output {
    type_text(w, line);
    key(w, Key::Unicode('\n'))
}

fn shown(w: &mut World, line: &str) -> String {
    let out = run(w, line);
    assert_eq!(out.special, Special::Nothing);
    assert_eq!(out.rest, "");
    out.text
}

const HELP: &str = "Available commands:\n  help     - Show this help\n  clear    - Clear screen\n  history  - Show command history\n  exit     - Shutdown the system\n  ls       - List directory contents\n  echo     - Display a line of text\n  pwd      - Print working directory\n";

#[test]
fn typing_echoes_each_character() {
    let mut w = world();
    assert_eq!(type_text(&mut w, "ls -l"), "ls -l");
    assert_eq!(w.shell.redraw_line(), "\r$ ls -l");
}

#[test]
fn typing_inserts_at_the_cursor() {
    let mut w = world();
    type_text(&mut w, "ac");
    assert_eq!(key(&mut w, Key::Home).text, "\r$ ac\x08\x08");
    type_text(&mut w, "x");
    assert_eq!(w.shell.redraw_line(), "\r$ xac\x08\x08");
    assert_eq!(key(&mut w, Key::End).text, "\r$ xac");
}

#[test]
fn backspace_removes_before_the_cursor() {
    let mut w = world();
    type_text(&mut w, "abc");
    assert_eq!(key(&mut w, Key::Backspace).text, "\r$ ab");
    assert_eq!(w.shell.handle_home(), "\r$ ab\x08\x08");
    assert_eq!(w.shell.handle_backspace(), "");
    assert_eq!(w.shell.redraw_line(), "\r$ ab\x08\x08");
}

#[test]
fn delete_removes_at_the_cursor() {
    let mut w = world();
    type_text(&mut w, "abc");
    assert_eq!(w.shell.handle_delete(), "");
    w.shell.handle_home();
    assert_eq!(key(&mut w, Key::Delete).text, "\r$ bc\x08\x08");
    assert_eq!(w.shell.handle_delete(), "\r$ c\x08");
    assert_eq!(w.shell.handle_delete(), "\r$ ");
    assert_eq!(w.shell.handle_delete(), "");
}

#[test]
fn insert_and_other_keys_show_nothing() {
    let mut w = world();
    type_text(&mut w, "ab");
    let out = key(&mut w, Key::Insert);
    assert_eq!((out.text.as_str(), out.special, out.rest.as_str()), ("", Special::Nothing, ""));
    let out = key(&mut w, Key::Other);
    assert_eq!((out.text.as_str(), out.special, out.rest.as_str()), ("", Special::Nothing, ""));
    w.shell.handle_insert();
    assert_eq!(w.shell.redraw_line(), "\r$ ab");
}

#[test]
fn empty_line_gives_a_new_prompt() {
    let mut w = world();
    assert_eq!(shown(&mut w, ""), "\n\n$ ");
    assert_eq!(shown(&mut w, "   "), "\n\n$ ");
    assert_eq!(w.shell.cmd_history(), "");
    assert_eq!(w.shell.redraw_line(), "\r$ ");
}

#[test]
fn help_shows_the_commands() {
    let mut w = world();
    assert_eq!(shown(&mut w, "help"), format!("\n\n{}$ ", HELP));
    assert_eq!(w.shell.cmd_help_str(), HELP);
}

#[test]
fn unknown_command_is_named() {
    let mut w = world();
    assert_eq!(shown(&mut w, "frobnicate now"), "\n\nUnknown command: 'frobnicate'\n$ ");
    assert_eq!(shown(&mut w, "time"), "\n\nUnknown command: 'time'\n$ ");
}

#[test]
fn echo_joins_its_arguments() {
    let mut w = world();
    assert_eq!(shown(&mut w, "echo hello   world"), "\n\nhello world\n$ ");
    assert_eq!(shown(&mut w, "echo"), "\n\n$ ");
    assert_eq!(w.shell.cmd_echo(&["a", "b", "c"]), "a b c\n");
    assert_eq!(w.shell.cmd_echo(&[]), "\n");
}

#[test]
fn mkdir_ls_cd_pwd_touch() {
    let mut w = world();
    assert_eq!(shown(&mut w, "pwd"), "\n\n/\n$ ");
    assert_eq!(shown(&mut w, "ls"), "\n\n$ ");
    assert_eq!(shown(&mut w, "mkdir docs/old"), "\n\n$ ");
    assert_eq!(shown(&mut w, "touch readme"), "\n\nFile created: readme\n$ ");
    assert_eq!(shown(&mut w, "ls"), "\n\ndocs/\nreadme\n$ ");
    assert_eq!(shown(&mut w, "cd docs"), "\n\n$ ");
    assert_eq!(shown(&mut w, "pwd"), "\n\n/docs\n$ ");
    assert_eq!(shown(&mut w, "ls"), "\n\nold/\n$ ");
    assert_eq!(shown(&mut w, "touch old/a.txt"), "\n\nFile created: old/a.txt\n$ ");
    assert_eq!(shown(&mut w, "cd old"), "\n\n$ ");
    assert_eq!(shown(&mut w, "pwd"), "\n\n/docs/old\n$ ");
    assert_eq!(shown(&mut w, "ls"), "\n\na.txt\n$ ");
    assert_eq!(shown(&mut w, "cd .."), "\n\n$ ");
    assert_eq!(shown(&mut w, "pwd"), "\n\n/docs\n$ ");
    assert_eq!(shown(&mut w, "cd"), "\n\n$ ");
    assert_eq!(shown(&mut w, "pwd"), "\n\n/\n$ ");
    assert_eq!(w.cursor, Vec::<String>::new());
    assert_eq!(read_file(&w.root, "readme"), Ok(Vec::new()));
}

#[test]
fn commands_report_failures() {
    let mut w = world();
    assert_eq!(shown(&mut w, "mkdir"), "\n\nUsage: mkdir <directory>\n$ ");
    assert_eq!(shown(&mut w, "touch"), "\n\nUsage: touch <filename>\n$ ");
    assert_eq!(shown(&mut w, "cd nowhere"), "\n\ncd: Directory not found\n$ ");
    assert_eq!(shown(&mut w, "cd .."), "\n\ncd: Already at root directory\n$ ");
    assert_eq!(shown(&mut w, "touch f"), "\n\nFile created: f\n$ ");
    assert_eq!(shown(&mut w, "mkdir f/g"), "\n\nmkdir: Not a directory\n$ ");
    assert_eq!(shown(&mut w, "touch f/g"), "\n\ntouch: Parent is not a directory\n$ ");
    assert_eq!(shown(&mut w, "touch f/g/h"), "\n\ntouch: Path component is not a directory\n$ ");
    assert_eq!(shown(&mut w, "cd f"), "\n\ncd: Directory not found\n$ ");
    assert_eq!(shown(&mut w, "touch /"), "\n\ntouch: Invalid path\n$ ");
}

#[test]
fn history_lists_the_lines_that_ran() {
    let mut w = world();
    shown(&mut w, "echo a");
    shown(&mut w, "  pwd ");
    assert_eq!(shown(&mut w, "history"), "\n\n0: echo a\n1:   pwd \n$ ");
    assert_eq!(w.shell.cmd_history(), "0: echo a\n1:   pwd \n2: history\n");
}

#[test]
fn history_numbers_go_past_nine() {
    let mut w = world();
    for _ in 0..11 {
        shown(&mut w, "x");
    }
    let text = w.shell.cmd_history();
    assert!(text.ends_with("9: x\n10: x\n"));
}

#[test]
fn clear_asks_for_the_screen_to_be_cleared() {
    let mut w = world();
    let out = run(&mut w, "clear");
    assert_eq!(out.text, "\n\n");
    assert_eq!(out.special, Special::ClearScreen);
    assert_eq!(out.rest, "$ $ ");
    assert_eq!(w.shell.cmd_history(), "0: clear\n");
    assert_eq!(w.shell.redraw_line(), "\r$ ");
}

#[test]
fn exit_asks_for_shutdown_and_leaves_the_shell() {
    let mut w = world();
    let out = run(&mut w, "exit");
    assert_eq!(out.text, "\n\nShutting down...\n");
    assert_eq!(out.special, Special::Shutdown);
    assert_eq!(out.rest, "");
    assert_eq!(w.shell.cmd_history(), "");
    assert_eq!(w.shell.redraw_line(), "\r$ exit");
}

#[test]
fn arrows_walk_the_history() {
    let mut w = world();
    shown(&mut w, "first");
    shown(&mut w, "second");
    assert_eq!(key(&mut w, Key::ArrowDown).text, "");
    assert_eq!(key(&mut w, Key::ArrowUp).text, "\r$ second");
    assert_eq!(key(&mut w, Key::ArrowUp).text, "\r$ first");
    assert_eq!(key(&mut w, Key::ArrowUp).text, "");
    assert_eq!(w.shell.redraw_line(), "\r$ first");
    assert_eq!(w.shell.history_down(), "\r$ second");
    assert_eq!(w.shell.history_down(), "\r$ ");
    assert_eq!(w.shell.history_down(), "");
    assert_eq!(w.shell.history_up(), "\r$ second");
}

#[test]
fn history_up_on_empty_history_does_nothing() {
    let mut w = world();
    type_text(&mut w, "abc");
    assert_eq!(w.shell.history_up(), "");
    assert_eq!(w.shell.redraw_line(), "\r$ abc");
}

#[test]
fn ls_marks_directories() {
    let mut w = world();
    create_directory(&mut w.root, "b").unwrap();
    write_file(&mut w.root, "a", b"1", false).unwrap();
    write_file(&mut w.root, "c", b"2", false).unwrap();
    assert_eq!(w.shell.cmd_ls(&w.root, &w.cursor), "a\nb/\nc\n");
    let gone = vec![String::from("missing")];
    assert_eq!(w.shell.cmd_ls(&w.root, &gone), "");
    let file = vec![String::from("a")];
    assert_eq!(w.shell.cmd_ls(&w.root, &file), "");
}

#[test]
fn current_dir_str_joins_the_cursor() {
    let w = world();
    assert_eq!(w.shell.current_dir_str(&Vec::new()), "/\n");
    assert_eq!(w.shell.current_dir_str(&vec![String::from("a")]), "/a\n");
    assert_eq!(w.shell.current_dir_str(&vec![String::from("a"), String::from("b")]), "/a/b\n");
    assert_eq!(w.shell.cmd_pwd(&vec![String::from("x"), String::from("y")]), "/x/y\n");
}

#[test]
fn cmd_mkdir_touch_cd_report() {
    let mut w = world();
    assert_eq!(w.shell.cmd_mkdir(&mut w.root, "a/b"), "Directory created: a/b\n");
    assert_eq!(w.shell.cmd_touch(&mut w.root, &w.cursor, "a/f"), "File created: a/f\n");
    assert_eq!(w.shell.cmd_mkdir(&mut w.root, "a/f/x"), "mkdir: Not a directory\n");
    assert_eq!(w.shell.cmd_cd(&w.root, &mut w.cursor, "a"), "");
    assert_eq!(w.cursor, vec![String::from("a")]);
    assert_eq!(w.shell.cmd_cd(&w.root, &mut w.cursor, "f"), "cd: Directory not found\n");
    assert_eq!(w.shell.cmd_cd(&w.root, &mut w.cursor, "b"), "");
    assert_eq!(w.cursor, vec![String::from("a"), String::from("b")]);
    assert_eq!(w.shell.cmd_touch(&mut w.root, &w.cursor, ""), "touch: Invalid path\n");
}

#[test]
fn write_to_file_writes_and_appends() {
    let mut w = world();
    assert_eq!(w.shell.write_to_file(&mut w.root, "out", "héllo", false), "");
    assert_eq!(w.shell.write_to_file(&mut w.root, "out", " there", true), "");
    assert_eq!(read_file(&w.root, "out"), Ok("héllo there".as_bytes().to_vec()));
    let mut file = FSNode::File { content: Vec::new(), created: 0, modified: 0 };
    assert_eq!(
        w.shell.write_to_file(&mut file, "out", "x", false),
        "Error writing to file: Root is not a directory\n"
    );
}

#[test]
fn parse_redirects_parts_command_and_target() {
    let w = world();
    let (command, target) = w.shell.parse_redirects(&["echo", "hi", ">", "out", "more"]);
    assert_eq!(command, vec!["echo", "hi"]);
    assert_eq!(target, Some((">", "out")));
    let (command, target) = w.shell.parse_redirects(&["echo", ">>", "log"]);
    assert_eq!(command, vec!["echo"]);
    assert_eq!(target, Some((">>", "log")));
    let (command, target) = w.shell.parse_redirects(&["echo", "a", "b"]);
    assert_eq!(command, vec!["echo", "a", "b"]);
    assert_eq!(target, None);
    let (command, target) = w.shell.parse_redirects(&["echo", "a", ">"]);
    assert_eq!(command, vec!["echo", "a"]);
    assert_eq!(target, None);
    let (command, target) = w.shell.parse_redirects(&[]);
    assert!(command.is_empty());
    assert_eq!(target, None);
    let (command, target) = w.shell.parse_redirects(&[">", ">>", "x"]);
    assert!(command.is_empty());
    assert_eq!(target, Some((">", ">>")));
}

#[test]
fn cmd_time_decodes_and_shifts() {
    let w = world();
    assert_eq!(w.shell.cmd_time(0x12, 0x34, 0x56), "Current time (UTC+9): 21:34:56\n");
    assert_eq!(w.shell.cmd_time(0x00, 0x00, 0x00), "Current time (UTC+9): 09:00:00\n");
    assert_eq!(w.shell.cmd_time(0x23, 0x59, 0x09), "Current time (UTC+9): 08:59:09\n");
    assert_eq!(w.shell.cmd_time(0x15, 0x05, 0x59), "Current time (UTC+9): 00:05:59\n");
}

#[test]
fn completion_offers_commands() {
    let w = world();
    let found = w.shell.get_completion_candidates("c", &w.root, &w.cursor);
    assert_eq!(found, vec!["clear", "cd"]);
    let found = w.shell.get_completion_candidates("t", &w.root, &w.cursor);
    assert_eq!(found, vec!["time", "touch"]);
    let found = w.shell.get_completion_candidates("help", &w.root, &w.cursor);
    assert_eq!(found, vec!["help"]);
    let found = w.shell.get_completion_candidates("x", &w.root, &w.cursor);
    assert!(found.is_empty());
    let found = w.shell.get_completion_candidates("", &w.root, &w.cursor);
    assert_eq!(found.len(), 9);
}

#[test]
fn completion_offers_names_of_the_current_directory() {
    let mut w = world();
    create_directory(&mut w.root, "docs").unwrap();
    create_directory(&mut w.root, "down").unwrap();
    write_file(&mut w.root, "data", b"", false).unwrap();
    write_file(&mut w.root, "else", b"", false).unwrap();
    let found = w.shell.get_completion_candidates("cd d", &w.root, &w.cursor);
    assert_eq!(found, vec!["cd data", "cd docs", "cd down"]);
    let found = w.shell.get_completion_candidates("touch do", &w.root, &w.cursor);
    assert_eq!(found, vec!["touch docs", "touch down"]);
    let found = w.shell.get_completion_candidates("echo d", &w.root, &w.cursor);
    assert!(found.is_empty());
    let found = w.shell.get_completion_candidates("ls  e", &w.root, &w.cursor);
    assert_eq!(found, vec!["ls else"]);
}

#[test]
fn completion_of_blank_input_offers_no_names() {
    let mut w = world();
    create_directory(&mut w.root, "docs").unwrap();
    assert!(w.shell.get_completion_candidates(" ", &w.root, &w.cursor).is_empty());
    assert!(w.shell.get_completion_candidates("   ", &w.root, &w.cursor).is_empty());
    assert!(w.shell.get_completion_candidates("cd ", &w.root, &w.cursor).is_empty());
    let found = w.shell.get_completion_candidates(" cd d", &w.root, &w.cursor);
    assert_eq!(found, vec!["cd docs"]);
}

#[test]
fn mkdir_at_the_name_of_a_file_fails() {
    let mut w = world();
    assert_eq!(shown(&mut w, "touch f"), "\n\nFile created: f\n$ ");
    assert_eq!(shown(&mut w, "mkdir f"), "\n\nmkdir: Not a directory\n$ ");
    assert_eq!(w.shell.cmd_mkdir(&mut w.root, "f"), "mkdir: Not a directory\n");
    assert_eq!(read_file(&w.root, "f"), Ok(Vec::new()));
}

#[test]
fn tab_on_empty_line_shows_help() {
    let mut w = world();
    assert_eq!(
        w.shell.handle_tab(&w.root, &w.cursor),
        format!("\nAvailable commands:\n{}$ ", HELP)
    );
    type_text(&mut w, "  ");
    assert_eq!(
        w.shell.handle_tab(&w.root, &w.cursor),
        format!("\nAvailable commands:\n{}$ ", HELP)
    );
}

#[test]
fn tab_completes_a_single_candidate() {
    let mut w = world();
    type_text(&mut w, "he");
    assert_eq!(w.shell.handle_tab(&w.root, &w.cursor), "\r$ help");
    create_directory(&mut w.root, "documents").unwrap();
    shown(&mut w, "");
    type_text(&mut w, "cd doc");
    assert_eq!(w.shell.handle_tab(&w.root, &w.cursor), "\r$ cd documents");
}

#[test]
fn tab_lists_several_candidates() {
    let mut w = world();
    type_text(&mut w, "c");
    assert_eq!(w.shell.handle_tab(&w.root, &w.cursor), "\nPossible completions:\nclear\ncd\n$ c");
    assert_eq!(w.shell.redraw_line(), "\r$ c");
}

#[test]
fn tab_without_candidates_does_nothing() {
    let mut w = world();
    type_text(&mut w, "zzz");
    assert_eq!(w.shell.handle_tab(&w.root, &w.cursor), "");
    assert_eq!(w.shell.redraw_line(), "\r$ zzz");
}

#[test]
fn tab_completes_what_stands_before_the_cursor() {
    let mut w = world();
    type_text(&mut w, "he");
    w.shell.handle_home();
    assert_eq!(
        w.shell.handle_tab(&w.root, &w.cursor),
        format!("\nAvailable commands:\n{}$ ", HELP)
    );
    assert_eq!(w.shell.redraw_line(), "\r$ he\x08\x08");
    type_text(&mut w, "pw ");
    assert_eq!(w.shell.handle_tab(&w.root, &w.cursor), "\r$ pwd");
}
