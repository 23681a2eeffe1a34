use blog_os_kernel::io::vga_buffer::{Writer, BUFFER_HEIGHT, BUFFER_WIDTH};
use blog_os_kernel::task::executor::{queue_at_step, task_step, PollOutcome, TaskStep};
use blog_os_kernel::task::shell::{Shell, ShellKey};
use blog_os_kernel::task::Priority;

fn row_text(w: &Writer, row: usize) -> String {
    let mut s = String::new();
    for col in 0..BUFFER_WIDTH {
        s.push(w.read_char(row, col).ascii_character as char);
    }
    s.trim_end().to_string()
}

fn type_line(shell: &mut Shell, writer: &mut Writer, line: &str) -> bool {
    for c in line.chars() {
        assert!(!shell.handle_key(ShellKey::Char(c), writer));
    }
    shell.handle_key(ShellKey::Char('\n'), writer)
}

#[test]
fn typing_redraws_the_line() {
    let mut shell = Shell::new();
    let mut writer = Writer::new();
    for c in "abc".chars() {
        shell.handle_key(ShellKey::Char(c), &mut writer);
    }
    assert_eq!(row_text(&writer, BUFFER_HEIGHT - 1), "blog_os> abc");
    shell.handle_key(ShellKey::ArrowLeft, &mut writer);
    shell.handle_key(ShellKey::ArrowLeft, &mut writer);
    shell.handle_key(ShellKey::Char('X'), &mut writer);
    // the cell under the cursor is blanked by the redraw
    assert_eq!(row_text(&writer, BUFFER_HEIGHT - 1), "blog_os> aX c");
    shell.handle_key(ShellKey::Backspace, &mut writer);
    assert_eq!(row_text(&writer, BUFFER_HEIGHT - 1), "blog_os> a c");
    shell.handle_key(ShellKey::Delete, &mut writer);
    assert_eq!(row_text(&writer, BUFFER_HEIGHT - 1), "blog_os> a");
    shell.handle_key(ShellKey::ArrowRight, &mut writer);
    shell.handle_key(ShellKey::OtherRaw, &mut writer);
    assert_eq!(row_text(&writer, BUFFER_HEIGHT - 1), "blog_os> ac");
}

#[test]
fn backspace_undoes_typing() {
    let mut shell = Shell::new();
    let mut writer = Writer::new();
    shell.handle_key(ShellKey::Char('a'), &mut writer);
    shell.handle_key(ShellKey::Char('b'), &mut writer);
    shell.handle_key(ShellKey::Backspace, &mut writer);
    assert_eq!(row_text(&writer, BUFFER_HEIGHT - 1), "blog_os> a");
    assert!(!shell.handle_key(ShellKey::Char('\n'), &mut writer));
    assert_eq!(row_text(&writer, BUFFER_HEIGHT - 2), "Unknown command: a");
}

#[test]
fn echo_prints_its_arguments() {
    let mut shell = Shell::new();
    let mut writer = Writer::new();
    assert!(!type_line(&mut shell, &mut writer, "echo  hello   world"));
    assert_eq!(row_text(&writer, BUFFER_HEIGHT - 3), "blog_os> echo  hello   world");
    assert_eq!(row_text(&writer, BUFFER_HEIGHT - 2), "hello world");
    assert_eq!(row_text(&writer, BUFFER_HEIGHT - 1), "blog_os>");
}

#[test]
fn echo_without_arguments_prints_usage() {
    let mut shell = Shell::new();
    let mut writer = Writer::new();
    assert!(!type_line(&mut shell, &mut writer, "echo"));
    assert_eq!(row_text(&writer, BUFFER_HEIGHT - 2), "Usage: echo <string>");
}

#[test]
fn unknown_command_is_reported() {
    let mut shell = Shell::new();
    let mut writer = Writer::new();
    assert!(!type_line(&mut shell, &mut writer, "  frobnicate now"));
    assert_eq!(row_text(&writer, BUFFER_HEIGHT - 2), "Unknown command: frobnicate");
}

#[test]
fn help_lists_commands() {
    let mut shell = Shell::new();
    let mut writer = Writer::new();
    assert!(!type_line(&mut shell, &mut writer, "help"));
    assert_eq!(row_text(&writer, BUFFER_HEIGHT - 7), "------------------------------------");
    assert_eq!(row_text(&writer, BUFFER_HEIGHT - 6), "|Available commands:");
    assert_eq!(row_text(&writer, BUFFER_HEIGHT - 3), "|  clear: Clear the screen");
    assert_eq!(row_text(&writer, BUFFER_HEIGHT - 1), "blog_os>");
}

#[test]
fn clear_scrolls_the_screen_away() {
    let mut shell = Shell::new();
    let mut writer = Writer::new();
    assert!(!type_line(&mut shell, &mut writer, "clear"));
    for row in 0..BUFFER_HEIGHT - 1 {
        assert_eq!(row_text(&writer, row), "");
    }
    assert_eq!(row_text(&writer, BUFFER_HEIGHT - 1), "blog_os>");
}

#[test]
fn empty_line_prints_only_prompt() {
    let mut shell = Shell::new();
    let mut writer = Writer::new();
    assert!(!type_line(&mut shell, &mut writer, "   "));
    assert_eq!(row_text(&writer, BUFFER_HEIGHT - 1), "blog_os>");
}

#[test]
fn run_hands_over_to_executor() {
    let mut shell = Shell::new();
    let mut writer = Writer::new();
    assert!(type_line(&mut shell, &mut writer, "run"));
}

#[test]
fn scheduling_decisions() {
    assert_eq!(queue_at_step(0), 2);
    assert_eq!(queue_at_step(2), 0);
    assert_eq!(Priority::Normal.index(), 1);
}

#[test]
fn long_lines_are_accepted() {
    let mut shell = Shell::new();
    let mut writer = Writer::new();
    let line = format!("echo {}", "x".repeat(4200));
    assert!(!type_line(&mut shell, &mut writer, &line));
    // the echoed text fills the rows above the new prompt
    assert_eq!(row_text(&writer, BUFFER_HEIGHT - 2), "x".repeat(4200 % BUFFER_WIDTH));
    assert_eq!(row_text(&writer, BUFFER_HEIGHT - 1), "blog_os>");
}

#[test]
fn executor_task_steps() {
    assert!(matches!(task_step(None), TaskStep::Skip));
    assert!(matches!(task_step(Some(PollOutcome::Ready)), TaskStep::Remove));
    assert!(matches!(task_step(Some(PollOutcome::Pending)), TaskStep::Keep));
}
