use blog_os_kernel::boot::welcome::show_welcome;
use blog_os_kernel::devices::disk::DiskManager;
use blog_os_kernel::io::vga_buffer::{Color, ColorCode, Writer, BUFFER_HEIGHT, BUFFER_WIDTH};

fn row_text(w: &Writer, row: usize) -> String {
    let mut s = String::new();
    for col in 0..BUFFER_WIDTH {
        s.push(w.read_char(row, col).ascii_character as char);
    }
    s.trim_end().to_string()
}

#[test]
fn test_println_output() {
    let mut writer = Writer::new();
    let s = "Some test string that fits on a single line";
    writer.write_string("\n");
    writer.write_string(s);
    writer.write_string("\n");
    for (i, c) in s.chars().enumerate() {
        let screen_char = writer.read_char(BUFFER_HEIGHT - 2, i);
        assert_eq!(char::from(screen_char.ascii_character), c);
    }
}

#[test]
fn test_println_simple() {
    let mut writer = Writer::new();
    writer.write_string("test_println_simple output\n");
    assert_eq!(row_text(&writer, BUFFER_HEIGHT - 2), "test_println_simple output");
}

#[test]
fn test_println_many() {
    let mut writer = Writer::new();
    for _ in 0..200 {
        writer.write_string("test_println_many output\n");
    }
    for row in 0..BUFFER_HEIGHT - 1 {
        assert_eq!(row_text(&writer, row), "test_println_many output");
    }
    assert_eq!(row_text(&writer, BUFFER_HEIGHT - 1), "");
}

#[test]
fn long_lines_wrap() {
    let mut writer = Writer::new();
    let line: String = std::iter::repeat('a').take(BUFFER_WIDTH).collect();
    writer.write_string(&line);
    writer.write_string("b");
    assert_eq!(row_text(&writer, BUFFER_HEIGHT - 2), line);
    assert_eq!(row_text(&writer, BUFFER_HEIGHT - 1), "b");
}

#[test]
fn non_printable_bytes_show_as_square() {
    let mut writer = Writer::new();
    writer.write_string("a\tb\u{e9}");
    assert_eq!(writer.read_char(BUFFER_HEIGHT - 1, 0).ascii_character, b'a');
    assert_eq!(writer.read_char(BUFFER_HEIGHT - 1, 1).ascii_character, 0xfe);
    assert_eq!(writer.read_char(BUFFER_HEIGHT - 1, 2).ascii_character, b'b');
    // 'é' is two bytes in UTF-8
    assert_eq!(writer.read_char(BUFFER_HEIGHT - 1, 3).ascii_character, 0xfe);
    assert_eq!(writer.read_char(BUFFER_HEIGHT - 1, 4).ascii_character, 0xfe);
}

#[test]
fn colors_and_columns() {
    assert_eq!(ColorCode::new(Color::Yellow, Color::Black), ColorCode(0x0e));
    assert_eq!(ColorCode::new(Color::White, Color::Blue), ColorCode(0x1f));
    let mut writer = Writer::new();
    writer.set_color(Color::Red, Color::White);
    writer.write_byte(b'x');
    let c = writer.read_char(BUFFER_HEIGHT - 1, 0);
    assert_eq!(c.ascii_character, b'x');
    assert_eq!(c.color_code, ColorCode(0xf4));
    assert_eq!(writer.get_row(), BUFFER_HEIGHT - 1);
    writer.set_column(200);
    writer.write_byte(b'y');
    assert_eq!(writer.read_char(BUFFER_HEIGHT - 1, BUFFER_WIDTH - 1).ascii_character, b'y');
}

#[test]
fn color_resets_after_newline() {
    let mut writer = Writer::new();
    writer.set_color(Color::Red, Color::White);
    writer.write_string("x\ny");
    assert_eq!(writer.read_char(BUFFER_HEIGHT - 2, 0).color_code, ColorCode(0xf4));
    assert_eq!(writer.read_char(BUFFER_HEIGHT - 1, 0).color_code, ColorCode(0x0e));
}

#[test]
fn clear_screen_blanks_everything() {
    let mut writer = Writer::new();
    writer.write_string("one\ntwo\nthree");
    writer.clear_screen();
    for row in 0..BUFFER_HEIGHT {
        assert_eq!(row_text(&writer, row), "");
    }
    writer.write_byte(b'z');
    assert_eq!(row_text(&writer, BUFFER_HEIGHT - 1), "z");
}

#[test]
fn welcome_screen() {
    let mut writer = Writer::new();
    show_welcome(&mut writer);
    assert_eq!(row_text(&writer, BUFFER_HEIGHT - 1), "");
    assert_eq!(row_text(&writer, BUFFER_HEIGHT - 2), "Type 'help' for a list of commands.");
    assert_eq!(row_text(&writer, BUFFER_HEIGHT - 3), "Welcome to blogOS!");
    assert_eq!(row_text(&writer, BUFFER_HEIGHT - 4), "");
    assert_eq!(row_text(&writer, BUFFER_HEIGHT - 5), "                      |___/");
}

#[test]
fn disk_manager_keeps_buffers() {
    DiskManager::init();
    let disk = DiskManager;
    let mut buf = [7u8; 4];
    disk.read_sector(3, &mut buf);
    assert_eq!(buf, [7u8; 4]);
    disk.write_sector(3, &buf);
}
