//! The interactive shell: line editing with a cursor, and a few commands.
use vstd::prelude::*;
use vstd::string::*;

use crate::io::vga_buffer::{
    blank, law_text_on_bottom_line, lemma_write_bytes_append, lemma_write_bytes_push, shown_byte,
    write_byte_spec, write_bytes_spec, writer_state_wf, ScreenChar, Writer, WriterState,
    BUFFER_HEIGHT, BUFFER_WIDTH,
};

verus! {

// ---------------------------------------------------------------------------
// Words.
// ---------------------------------------------------------------------------

/// Unicode white space, as `char::is_whitespace` decides it.
pub open spec fn is_space(c: char) -> bool {
    let v = c as int;
    ||| 9 <= v <= 13
    ||| v == 32
    ||| v == 0x85
    ||| v == 0xa0
    ||| v == 0x1680
    ||| 0x2000 <= v <= 0x200a
    ||| v == 0x2028
    ||| v == 0x2029
    ||| v == 0x202f
    ||| v == 0x205f
    ||| v == 0x3000
}

/// Whether `c` is white space.
fn char_is_space(c: char) -> (r: bool)
    ensures
        r == is_space(c),
{
    let v = c as u32;
    (9 <= v && v <= 13) || v == 32 || v == 0x85 || v == 0xa0 || v == 0x1680 || (0x2000 <= v && v
        <= 0x200a) || v == 0x2028 || v == 0x2029 || v == 0x202f || v == 0x205f || v == 0x3000
}

/// The words of `s`: its maximal runs of non-space characters, in order.
pub open spec fn words(s: Seq<char>) -> Seq<Seq<char>>
    decreases s.len(),
{
    if s.len() == 0 {
        Seq::empty()
    } else {
        let t = s.drop_last();
        let c = s.last();
        let w = words(t);
        if is_space(c) {
            w
        } else if t.len() == 0 || is_space(t.last()) {
            w.push(seq![c])
        } else {
            w.update(w.len() - 1, w.last().push(c))
        }
    }
}

/// A text that ends inside a word has at least one word.
proof fn lemma_words_nonempty(s: Seq<char>)
    requires
        s.len() > 0,
        !is_space(s.last()),
    ensures
        words(s).len() > 0,
    decreases s.len(),
{
    let t = s.drop_last();
    if t.len() > 0 && !is_space(t.last()) {
        lemma_words_nonempty(t);
    }
}

/// Every word is non-empty and holds no white space.
pub proof fn law_words_are_words(s: Seq<char>)
    ensures
        forall|i: int| 0 <= i < words(s).len() ==> (#[trigger] words(s)[i]).len() > 0,
        forall|i: int, j: int|
            0 <= i < words(s).len() && 0 <= j < words(s)[i].len() ==> !is_space(#[trigger] words(s)[i][j]),
    decreases s.len(),
{
    if s.len() > 0 {
        let t = s.drop_last();
        law_words_are_words(t);
        let c = s.last();
        let w = words(t);
        if !is_space(c) && !(t.len() == 0 || is_space(t.last())) {
            lemma_words_nonempty(t);
            let ws = words(s);
            assert forall|i: int, j: int| 0 <= i < ws.len() && 0 <= j < ws[i].len() implies !is_space(#[trigger] ws[i][j]) by {
                if i == w.len() - 1 && j == w.last().len() {
                    assert(ws[i][j] == c);
                } else if i == w.len() - 1 {
                    assert(ws[i][j] == w[i][j]);
                }
            }
        }
    }
}

/// Splits `s` into its words.
fn split_words(s: &Vec<char>) -> (r: Vec<Vec<char>>)
    ensures
        r@.len() == words(s@).len(),
        forall|i: int| 0 <= i < r@.len() ==> (#[trigger] r@[i])@ == words(s@)[i],
{
    let mut r: Vec<Vec<char>> = Vec::new();
    let mut i: usize = 0;
    while i < s.len()
        invariant
            0 <= i <= s@.len(),
            r@.len() == words(s@.take(i as int)).len(),
            forall|k: int| 0 <= k < r@.len() ==> (#[trigger] r@[k])@ == words(s@.take(i as int))[k],
        decreases s@.len() - i,
    {
        let c = s[i];
        let ghost t = s@.take(i as int);
        assert(s@.take(i + 1).drop_last() =~= t);
        assert(s@.take(i + 1).last() == c);
        if char_is_space(c) {
        } else if i == 0 || char_is_space(s[i - 1]) {
            let mut w: Vec<char> = Vec::new();
            w.push(c);
            assert(w@ =~= seq![c]);
            r.push(w);
        } else {
            assert(t.last() == s@[i - 1]);
            proof {
                lemma_words_nonempty(t);
            }
            let last = r.len() - 1;
            let mut w = r.remove(last);
            w.push(c);
            r.push(w);
        }
        i = i + 1;
        proof {
            let ws = words(s@.take(i as int));
            assert forall|k: int| 0 <= k < r@.len() implies (#[trigger] r@[k])@ == ws[k] by {}
        }
    }
    assert(s@.take(i as int) =~= s@);
    r
}

// ---------------------------------------------------------------------------
// Output.
// ---------------------------------------------------------------------------

/// The bytes of an ASCII text.
pub open spec fn ascii_bytes(s: Seq<char>) -> Seq<u8> {
    s.map_values(|c: char| c as u8)
}

/// Every character is ASCII.
pub open spec fn all_ascii(s: Seq<char>) -> bool {
    forall|i: int| 0 <= i < s.len() ==> (#[trigger] s[i] as int) < 128
}

/// Writes the characters of `chars`, one byte each.
fn write_chars(writer: &mut Writer, chars: &Vec<char>)
    requires
        old(writer).wf(),
    ensures
        final(writer).wf(),
        final(writer)@ == write_bytes_spec(old(writer)@, ascii_bytes(chars@)),
{
    let mut i: usize = 0;
    while i < chars.len()
        invariant
            0 <= i <= chars@.len(),
            writer.wf(),
            writer@ == write_bytes_spec(old(writer)@, ascii_bytes(chars@.take(i as int))),
        decreases chars@.len() - i,
    {
        let c = chars[i];
        proof {
            lemma_write_bytes_push(old(writer)@, ascii_bytes(chars@.take(i as int)), c as u8);
            assert(ascii_bytes(chars@.take(i + 1)) =~= ascii_bytes(chars@.take(i as int)).push(c as u8));
        }
        writer.put_byte(c as u8);
        i = i + 1;
    }
    assert(chars@.take(i as int) =~= chars@);
}

/// Writes `s`, then continues the byte sequence written so far.
fn write_more(writer: &mut Writer, s: &str, Ghost(w0): Ghost<WriterState>, Ghost(done): Ghost<Seq<u8>>)
    requires
        old(writer).wf(),
        old(writer)@ == write_bytes_spec(w0, done),
    ensures
        final(writer).wf(),
        final(writer)@ == write_bytes_spec(w0, done + s.spec_bytes()),
{
    writer.write_string(s);
    proof {
        lemma_write_bytes_append(w0, done, s.spec_bytes());
    }
}

/// Writes `chars`, then continues the byte sequence written so far.
fn write_more_chars(writer: &mut Writer, chars: &Vec<char>, Ghost(w0): Ghost<WriterState>, Ghost(done): Ghost<Seq<u8>>)
    requires
        old(writer).wf(),
        old(writer)@ == write_bytes_spec(w0, done),
    ensures
        final(writer).wf(),
        final(writer)@ == write_bytes_spec(w0, done + ascii_bytes(chars@)),
{
    write_chars(writer, chars);
    proof {
        lemma_write_bytes_append(w0, done, ascii_bytes(chars@));
    }
}

/// Whether `v` holds exactly the characters of `s`.
fn chars_eq_str(v: &Vec<char>, s: &str) -> (r: bool)
    ensures
        r == (v@ == s@),
{
    let n = s.unicode_len();
    if v.len() != n {
        return false;
    }
    let mut i: usize = 0;
    while i < n
        invariant
            n == s@.len(),
            v@.len() == n,
            0 <= i <= n,
            v@.take(i as int) == s@.take(i as int),
        decreases n - i,
    {
        if v[i] != s.get_char(i) {
            assert(v@[i as int] != s@[i as int]);
            return false;
        }
        assert(v@.take(i + 1) =~= v@.take(i as int).push(v@[i as int]));
        assert(s@.take(i + 1) =~= s@.take(i as int).push(s@[i as int]));
        i = i + 1;
    }
    assert(v@ =~= v@.take(i as int));
    assert(s@ =~= s@.take(i as int));
    true
}

/// The words joined by single spaces.
pub open spec fn join_words(ws: Seq<Seq<char>>) -> Seq<char>
    decreases ws.len(),
{
    if ws.len() == 0 {
        Seq::empty()
    } else if ws.len() == 1 {
        ws[0]
    } else {
        join_words(ws.drop_last()) + seq![' '] + ws.last()
    }
}

/// The help text.
pub const HELP_TEXT: &'static str = "------------------------------------\n|Available commands:\n|  help: Print this help message\n|  echo <string>: Print the string to the screen\n|  clear: Clear the screen\n------------------------------------\n";

/// The usage line of `echo`.
pub const ECHO_USAGE: &'static str = "Usage: echo <string>\n";

/// The start of the line printed for an unknown command.
pub const UNKNOWN_COMMAND: &'static str = "Unknown command: ";

/// What a command line prints, after the newline that ends the input line;
/// `run` prints nothing more (it hands the machine over to the executor).
pub open spec fn command_output(args: Seq<Seq<char>>) -> Seq<u8> {
    if args.len() == 0 {
        Seq::empty()
    } else if args[0] == "help"@ {
        HELP_TEXT.spec_bytes()
    } else if args[0] == "echo"@ {
        if args.len() == 1 {
            ECHO_USAGE.spec_bytes()
        } else {
            ascii_bytes(join_words(args.skip(1))).push(10u8)
        }
    } else if args[0] == "clear"@ {
        Seq::new(25, |i: int| 10u8)
    } else if args[0] == "run"@ {
        Seq::empty()
    } else {
        UNKNOWN_COMMAND.spec_bytes() + ascii_bytes(args[0]).push(10u8)
    }
}

/// The text is the command `run`.
pub open spec fn is_run(args: Seq<Seq<char>>) -> bool {
    args.len() > 0 && args[0] == "run"@
}

/// The bytes of joined words grow word by word.
proof fn lemma_join_step(ws: Seq<Seq<char>>, i: int)
    requires
        2 <= i < ws.len(),
    ensures
        ascii_bytes(join_words(ws.subrange(1, i + 1))) == ascii_bytes(join_words(ws.subrange(1, i))).push(32u8) + ascii_bytes(ws[i]),
{
    let a = ws.subrange(1, i + 1);
    assert(a.drop_last() =~= ws.subrange(1, i));
    assert(a.last() == ws[i]);
    assert(join_words(a) == join_words(ws.subrange(1, i)) + seq![' '] + ws[i]);
    assert(ascii_bytes(join_words(a)) =~= ascii_bytes(join_words(ws.subrange(1, i))).push(32u8) + ascii_bytes(ws[i]));
}

/// Prints the words `args[1..]` separated by spaces, and a newline.
fn cmd_echo_words(writer: &mut Writer, args: &Vec<Vec<char>>, Ghost(ws): Ghost<Seq<Seq<char>>>, Ghost(w0): Ghost<WriterState>, Ghost(done): Ghost<Seq<u8>>)
    requires
        old(writer).wf(),
        old(writer)@ == write_bytes_spec(w0, done),
        args@.len() == ws.len(),
        ws.len() >= 2,
        forall|i: int| 0 <= i < ws.len() ==> (#[trigger] args@[i])@ == ws[i],
    ensures
        final(writer).wf(),
        final(writer)@ == write_bytes_spec(w0, done + ascii_bytes(join_words(ws.skip(1))).push(10u8)),
{
    write_more_chars(writer, &args[1], Ghost(w0), Ghost(done));
    assert(ws.subrange(1, 2) =~= seq![ws[1]]);
    let mut i: usize = 2;
    while i < args.len()
        invariant
            2 <= i <= ws.len(),
            args@.len() == ws.len(),
            forall|k: int| 0 <= k < ws.len() ==> (#[trigger] args@[k])@ == ws[k],
            writer.wf(),
            writer@ == write_bytes_spec(w0, done + ascii_bytes(join_words(ws.subrange(1, i as int)))),
        decreases ws.len() - i,
    {
        let ghost before = done + ascii_bytes(join_words(ws.subrange(1, i as int)));
        proof {
            lemma_write_bytes_push(w0, before, 32u8);
        }
        writer.put_byte(32u8);
        write_more_chars(writer, &args[i], Ghost(w0), Ghost(before.push(32u8)));
        proof {
            lemma_join_step(ws, i as int);
            assert(before.push(32u8) + ascii_bytes(ws[i as int]) =~= done + ascii_bytes(join_words(ws.subrange(1, i + 1))));
        }
        i = i + 1;
    }
    assert(ws.subrange(1, i as int) =~= ws.skip(1));
    let ghost before = done + ascii_bytes(join_words(ws.skip(1)));
    proof {
        lemma_write_bytes_push(w0, before, 10u8);
    }
    writer.put_byte(10u8);
    assert(before.push(10u8) =~= done + ascii_bytes(join_words(ws.skip(1))).push(10u8));
}

// ---------------------------------------------------------------------------
// The shell.
// ---------------------------------------------------------------------------

/// A key as the shell sees it.
#[derive(Debug, Clone, Copy, PartialEq, Eq)]
pub enum ShellKey {
    ArrowLeft,
    ArrowRight,
    Backspace,
    Delete,
    /// Any other key without a character.
    OtherRaw,
    /// A key that types a character.
    Char(char),
}

/// Abstract state of the shell: the input line and the cursor in it.
pub struct ShellState {
    pub input: Seq<char>,
    pub cursor: nat,
}

/// The writer with its cursor at `col`, capped at the last column.
pub open spec fn set_column_spec(w: WriterState, col: nat) -> WriterState {
    WriterState { column: if col < BUFFER_WIDTH - 1 { col } else { (BUFFER_WIDTH - 1) as nat }, ..w }
}

/// A line of blanks.
pub open spec fn blank_line() -> Seq<u8> {
    Seq::new(BUFFER_WIDTH as nat, |i: int| 32u8)
}

/// Redrawing the input line: blank the bottom line, write the prompt and
/// the input from column 0, then blank the cell under the cursor and leave
/// the writer's cursor there.
pub open spec fn redraw_spec(w: WriterState, prompt: Seq<u8>, input: Seq<char>, cursor: nat) -> WriterState {
    let col = prompt.len() + cursor;
    let w1 = write_bytes_spec(set_column_spec(w, 0), blank_line());
    let w2 = write_bytes_spec(set_column_spec(w1, 0), prompt + ascii_bytes(input));
    let w3 = write_bytes_spec(set_column_spec(w2, col), seq![32u8]);
    set_column_spec(w3, col)
}

/// What a redraw shows when the prompt and the line fit on one screen line:
/// the bottom line holds the prompt followed by the line and then blanks, in
/// the writer's colour, except that the cell under the cursor is blanked;
/// the writer's cursor stands on that cell.
pub proof fn law_redraw_shows_line(w: WriterState, prompt: Seq<u8>, input: Seq<char>, cursor: nat, k: int)
    requires
        writer_state_wf(w),
        cursor <= input.len(),
        prompt.len() + input.len() < BUFFER_WIDTH,
        forall|i: int| 0 <= i < prompt.len() ==> 0x20 <= #[trigger] prompt[i] <= 0x7e,
        forall|i: int| 0 <= i < input.len() ==> 0x20 <= (#[trigger] input[i] as int) <= 0x7e,
        0 <= k < BUFFER_WIDTH,
    ensures
        ({
            let t = redraw_spec(w, prompt, input, cursor);
            let col = prompt.len() + cursor;
            &&& writer_state_wf(t)
            &&& t.column == col
            &&& t.color == w.color
            &&& t.cells[(BUFFER_HEIGHT - 1) * BUFFER_WIDTH + k] == if k == col {
                blank(w.color)
            } else if k < prompt.len() {
                ScreenChar { ascii_character: prompt[k], color_code: w.color }
            } else if k < prompt.len() + input.len() {
                ScreenChar { ascii_character: input[k - prompt.len()] as u8, color_code: w.color }
            } else {
                blank(w.color)
            }
        }),
{
    let bottom = (BUFFER_HEIGHT - 1) * BUFFER_WIDTH;
    let col = prompt.len() + cursor;
    let w0 = set_column_spec(w, 0);
    law_text_on_bottom_line(w0, blank_line());
    let w1 = write_bytes_spec(w0, blank_line());
    let text = prompt + ascii_bytes(input);
    assert forall|i: int| 0 <= i < text.len() implies 0x20 <= #[trigger] text[i] <= 0x7e by {
        if i >= prompt.len() {
            assert(text[i] == input[i - prompt.len()] as u8);
        }
    }
    let w1b = set_column_spec(w1, 0);
    law_text_on_bottom_line(w1b, text);
    let w2 = write_bytes_spec(w1b, text);
    let w2b = set_column_spec(w2, col);
    lemma_write_bytes_push(w2b, Seq::empty(), 32u8);
    assert(Seq::<u8>::empty().push(32u8) =~= seq![32u8]);
    let w3 = write_bytes_spec(w2b, seq![32u8]);
    assert(w3 == write_byte_spec(w2b, 32u8));
    assert(w1.cells[bottom + k] == blank(w.color)) by {
        assert(blank_line()[k] == 32u8);
    }
    if k < text.len() {
        assert(w2.cells[bottom + k] == ScreenChar { ascii_character: text[k], color_code: w.color });
        if k >= prompt.len() {
            assert(text[k] == input[k - prompt.len()] as u8);
        }
    } else {
        assert(w2.cells[bottom + k] == w1.cells[bottom + k]);
    }
}

/// A word appended to a text that is empty or ends in white space becomes
/// the text's last word.
proof fn lemma_words_append_word(p: Seq<char>, x: Seq<char>)
    requires
        p.len() == 0 || is_space(p.last()),
        x.len() > 0,
        forall|i: int| 0 <= i < x.len() ==> !is_space(#[trigger] x[i]),
    ensures
        words(p + x) == words(p).push(x),
    decreases x.len(),
{
    let c = x.last();
    let x1 = x.drop_last();
    assert((p + x).drop_last() =~= p + x1);
    assert((p + x).last() == c);
    if x1.len() == 0 {
        assert(p + x1 =~= p);
        assert(x =~= seq![c]);
    } else {
        lemma_words_append_word(p, x1);
        assert((p + x1).last() == x1.last());
        assert(x1.push(c) =~= x);
    }
}

/// Joining words with single spaces and splitting the result gives the
/// words back; the joined text neither starts nor ends with white space and
/// never holds two white-space characters in a row.
pub proof fn law_join_words_round_trip(ws: Seq<Seq<char>>)
    requires
        ws.len() > 0,
        forall|i: int| 0 <= i < ws.len() ==> (#[trigger] ws[i]).len() > 0,
        forall|i: int, j: int| 0 <= i < ws.len() && 0 <= j < ws[i].len() ==> !is_space(#[trigger] ws[i][j]),
    ensures
        words(join_words(ws)) == ws,
        join_words(ws).len() > 0,
        !is_space(join_words(ws)[0]),
        !is_space(join_words(ws).last()),
        forall|i: int|
            0 <= i < join_words(ws).len() - 1 ==> !(is_space(#[trigger] join_words(ws)[i]) && is_space(
                join_words(ws)[i + 1],
            )),
    decreases ws.len(),
{
    let x = ws.last();
    assert forall|i: int| 0 <= i < x.len() implies !is_space(#[trigger] x[i]) by {
        assert(ws[ws.len() - 1][i] == x[i]);
    }
    if ws.len() == 1 {
        lemma_words_append_word(Seq::empty(), ws[0]);
        assert(Seq::<char>::empty() + ws[0] =~= ws[0]);
        assert(seq![ws[0]] =~= ws);
        assert(ws[0][0] == ws[0][0]);
        assert(!is_space(ws[0][0]));
    } else {
        let w1 = ws.drop_last();
        assert forall|i: int, j: int| 0 <= i < w1.len() && 0 <= j < w1[i].len() implies !is_space(#[trigger] w1[i][j]) by {
            assert(w1[i] == ws[i]);
        }
        assert forall|i: int| 0 <= i < w1.len() implies (#[trigger] w1[i]).len() > 0 by {
            assert(w1[i] == ws[i]);
        }
        law_join_words_round_trip(w1);
        let jj = join_words(w1);
        let p = jj + seq![' '];
        assert(is_space(' '));
        assert(p.drop_last() =~= jj);
        assert(p.last() == ' ');
        assert(words(p) == words(jj));
        lemma_words_append_word(p, x);
        assert(join_words(ws) == p + x);
        assert(w1.push(x) =~= ws);
        let j = p + x;
        assert(j[0] == jj[0]);
        assert(j.last() == x.last());
        assert(!is_space(x[x.len() - 1]));
        assert forall|i: int| 0 <= i < j.len() - 1 implies !(is_space(#[trigger] j[i]) && is_space(j[i + 1])) by {
            if i < jj.len() - 1 {
                assert(j[i] == jj[i] && j[i + 1] == jj[i + 1]);
            } else if i == jj.len() - 1 {
                assert(j[i] == jj.last());
            } else if i == jj.len() {
                assert(j[i + 1] == x[0]);
            } else {
                assert(j[i] == x[i - jj.len() - 1]);
            }
        }
    }
}

/// `echo` prints its arguments: the line it prints, read back as words,
/// gives the words after `echo`, each separated from the next by a single
/// space, and ends with a newline.
pub proof fn law_echo_prints_arguments(line: Seq<char>)
    requires
        words(line).len() >= 2,
        words(line)[0] == "echo"@,
    ensures
        ({
            let out = command_output(words(line));
            let text = join_words(words(line).skip(1));
            &&& out == ascii_bytes(text).push(10u8)
            &&& words(text) == words(line).skip(1)
            &&& !is_space(text[0]) && !is_space(text.last())
            &&& forall|i: int| 0 <= i < text.len() - 1 ==> !(is_space(#[trigger] text[i]) && is_space(text[i + 1]))
        }),
{
    reveal_strlit("help");
    reveal_strlit("echo");
    let ws = words(line);
    law_words_are_words(line);
    let rest = ws.skip(1);
    assert forall|i: int| 0 <= i < rest.len() implies (#[trigger] rest[i]).len() > 0 by {
        assert(rest[i] == ws[i + 1]);
    }
    assert forall|i: int, j: int| 0 <= i < rest.len() && 0 <= j < rest[i].len() implies !is_space(#[trigger] rest[i][j]) by {
        assert(rest[i] == ws[i + 1]);
    }
    law_join_words_round_trip(rest);
    assert("echo"@ != "help"@) by {
        assert("echo"@[0] != "help"@[0]);
    }
}

/// The effect of a key on the shell and the screen, and whether it starts
/// the task executor (the `run` command).
pub open spec fn handle_key_spec(s: ShellState, w: WriterState, prompt: Seq<u8>, key: ShellKey) -> (ShellState, WriterState, bool) {
    match key {
        ShellKey::ArrowLeft => if s.cursor > 0 {
            let t = ShellState { input: s.input, cursor: (s.cursor - 1) as nat };
            (t, redraw_spec(w, prompt, t.input, t.cursor), false)
        } else {
            (s, w, false)
        },
        ShellKey::ArrowRight => if s.cursor < s.input.len() {
            let t = ShellState { input: s.input, cursor: s.cursor + 1 };
            (t, redraw_spec(w, prompt, t.input, t.cursor), false)
        } else {
            (s, w, false)
        },
        ShellKey::Backspace => if s.cursor > 0 {
            let t = ShellState { input: s.input.remove(s.cursor - 1), cursor: (s.cursor - 1) as nat };
            (t, redraw_spec(w, prompt, t.input, t.cursor), false)
        } else {
            (s, w, false)
        },
        ShellKey::Delete => if s.cursor < s.input.len() {
            let t = ShellState { input: s.input.remove(s.cursor as int), cursor: s.cursor };
            (t, redraw_spec(w, prompt, t.input, t.cursor), false)
        } else {
            (s, w, false)
        },
        ShellKey::OtherRaw => (s, w, false),
        ShellKey::Char(c) => if c == '\n' {
            let w1 = write_bytes_spec(w, seq![10u8] + command_output(words(s.input)));
            if is_run(words(s.input)) {
                (s, w1, true)
            } else {
                (ShellState { input: Seq::empty(), cursor: 0 }, write_bytes_spec(w1, prompt), false)
            }
        } else {
            let t = ShellState { input: s.input.insert(s.cursor as int, c), cursor: s.cursor + 1 };
            (t, redraw_spec(w, prompt, t.input, t.cursor), false)
        },
    }
}

/// Typing a character and then erasing it with backspace gives back the
/// input line and the cursor.
pub proof fn law_backspace_undoes_typing(s: ShellState, w: WriterState, prompt: Seq<u8>, c: char, w2: WriterState)
    requires
        s.cursor <= s.input.len(),
        c != '\n',
    ensures
        handle_key_spec(handle_key_spec(s, w, prompt, ShellKey::Char(c)).0, w2, prompt, ShellKey::Backspace).0
            == s,
{
    let t = handle_key_spec(s, w, prompt, ShellKey::Char(c)).0;
    assert(t.input.remove(s.cursor as int) =~= s.input);
}

/// What each key does to the line and the cursor. The arrows move the
/// cursor by one place inside the line and leave the line alone; backspace
/// removes the character before the cursor and delete the one under it;
/// typing a character puts it at the cursor and moves the cursor past it;
/// a key that cannot act (an arrow or erase at the end it points to, or any
/// other key) changes nothing. Enter runs the line: the line is emptied,
/// except for `run`, which leaves it and starts the task executor; only
/// `run` does so.
pub proof fn law_handle_key_edits(s: ShellState, w: WriterState, prompt: Seq<u8>, key: ShellKey)
    requires
        s.cursor <= s.input.len(),
    ensures
        ({
            let (t, _w, run) = handle_key_spec(s, w, prompt, key);
            let n = s.input.len();
            let k = s.cursor as int;
            &&& run == (key == ShellKey::Char('\n') && words(s.input).len() > 0 && words(s.input)[0]
                == seq!['r', 'u', 'n'])
            &&& t.cursor <= t.input.len()
            &&& match key {
                ShellKey::ArrowLeft => t.input == s.input && t.cursor == if k > 0 { k - 1 } else { k },
                ShellKey::ArrowRight => t.input == s.input && t.cursor == if k < n { k + 1 } else { k },
                ShellKey::Backspace => if k > 0 {
                    &&& t.input == s.input.subrange(0, k - 1) + s.input.subrange(k, n as int)
                    &&& t.cursor == k - 1
                } else {
                    t == s
                },
                ShellKey::Delete => if k < n {
                    &&& t.input == s.input.subrange(0, k) + s.input.subrange(k + 1, n as int)
                    &&& t.cursor == k
                } else {
                    t == s
                },
                ShellKey::OtherRaw => t == s,
                ShellKey::Char(c) => if c == '\n' {
                    if run {
                        t == s
                    } else {
                        t.input.len() == 0 && t.cursor == 0
                    }
                } else {
                    &&& t.input == s.input.subrange(0, k) + seq![c] + s.input.subrange(k, n as int)
                    &&& t.cursor == k + 1
                },
            }
        }),
{
    reveal_strlit("run");
    let n = s.input.len();
    let k = s.cursor as int;
    if k > 0 {
        assert(s.input.remove(k - 1) =~= s.input.subrange(0, k - 1) + s.input.subrange(k, n as int));
    }
    if k < n {
        assert(s.input.remove(k) =~= s.input.subrange(0, k) + s.input.subrange(k + 1, n as int));
    }
    if !(key is Char) {
        assert(!handle_key_spec(s, w, prompt, key).2);
    }
    if key is Char {
        let c = key->Char_0;
        if c == '\n' {
            assert("run"@ =~= seq!['r', 'u', 'n']);
        } else {
            assert(!handle_key_spec(s, w, prompt, key).2);
            assert(s.input.insert(k, c) =~= s.input.subrange(0, k) + seq![c] + s.input.subrange(k, n as int));
        }
    }
}

/// The prompt.
pub const PROMPT: &'static str = "blog_os> ";

/// The shell: an input line being edited at a cursor.
pub struct Shell {
    input_buffer: Vec<char>,
    prompt: &'static str,
    cursor_position: usize,
}

impl Shell {
    /// The input line and the cursor.
    pub closed spec fn state(&self) -> ShellState {
        ShellState { input: self.input_buffer@, cursor: self.cursor_position as nat }
    }

    /// The bytes of the prompt.
    pub closed spec fn prompt_bytes(&self) -> Seq<u8> {
        self.prompt.spec_bytes()
    }

    /// The cursor is inside the line, the line is ASCII, and the prompt is
    /// `PROMPT`.
    pub open spec fn wf(&self) -> bool {
        &&& self.state().cursor <= self.state().input.len()
        &&& all_ascii(self.state().input)
        &&& self.prompt_bytes() == PROMPT.spec_bytes()
    }

    /// A shell with an empty line and the prompt `blog_os> `.
    pub fn new() -> (r: Shell)
        ensures
            r.wf(),
            r.state() == (ShellState { input: Seq::empty(), cursor: 0 }),
            r.prompt_bytes() == PROMPT.spec_bytes(),
    {
        proof {
            reveal_strlit("blog_os> ");
            broadcast use vstd::string::group_string_axioms;
            assert(vstd::string::is_ascii(PROMPT));
        }
        Shell { input_buffer: Vec::new(), prompt: PROMPT, cursor_position: 0 }
    }

    /// Redraws the input line and places the cursor.
    fn redraw_line(&self, writer: &mut Writer)
        requires
            self.wf(),
            old(writer).wf(),
        ensures
            final(writer).wf(),
            final(writer)@ == redraw_spec(old(writer)@, self.prompt_bytes(), self.state().input, self.state().cursor),
    {
        let _row = writer.get_row();
        writer.set_column(0);
        let ghost w1 = writer@;
        let mut k: usize = 0;
        while k < BUFFER_WIDTH
            invariant
                0 <= k <= BUFFER_WIDTH,
                writer.wf(),
                writer@ == write_bytes_spec(w1, Seq::new(k as nat, |i: int| 32u8)),
            decreases BUFFER_WIDTH - k,
        {
            proof {
                lemma_write_bytes_push(w1, Seq::new(k as nat, |i: int| 32u8), 32u8);
                assert(Seq::new(k as nat, |i: int| 32u8).push(32u8) =~= Seq::new((k + 1) as nat, |i: int| 32u8));
            }
            writer.put_byte(32u8);
            k = k + 1;
        }
        writer.set_column(0);
        let ghost w2 = writer@;
        assert(w2 == write_bytes_spec(w2, Seq::<u8>::empty()));
        write_more(writer, self.prompt, Ghost(w2), Ghost(Seq::empty()));
        assert(Seq::<u8>::empty() + self.prompt.spec_bytes() =~= self.prompt.spec_bytes());
        write_more_chars(writer, &self.input_buffer, Ghost(w2), Ghost(self.prompt.spec_bytes()));
        let prompt_len = self.prompt.len();
        proof {
            reveal_strlit("blog_os> ");
            broadcast use vstd::string::group_string_axioms;
            assert(vstd::string::is_ascii(PROMPT));
            assert(prompt_len == self.prompt_bytes().len());
        }
        let cursor_column = prompt_len.saturating_add(self.cursor_position);
        writer.set_column(cursor_column);
        let ghost w3 = writer@;
        proof {
            lemma_write_bytes_push(w3, Seq::empty(), 32u8);
            assert(Seq::<u8>::empty().push(32u8) =~= seq![32u8]);
        }
        writer.put_byte(32u8);
        writer.set_column(cursor_column);
    }

    /// Runs the command on the input line and prints its output; returns
    /// whether the command is `run`, which hands the machine over to the
    /// task executor.
    fn execute_command(&self, writer: &mut Writer) -> (r: bool)
        requires
            self.wf(),
            old(writer).wf(),
        ensures
            final(writer).wf(),
            final(writer)@ == write_bytes_spec(old(writer)@, seq![10u8] + command_output(words(self.state().input))),
            r == is_run(words(self.state().input)),
    {
        let ghost w0 = writer@;
        let ghost ws = words(self.input_buffer@);
        proof {
            reveal_strlit("help");
            reveal_strlit("echo");
            reveal_strlit("clear");
            reveal_strlit("run");
            lemma_write_bytes_push(w0, Seq::empty(), 10u8);
            assert(Seq::<u8>::empty().push(10u8) =~= seq![10u8]);
        }
        writer.put_byte(10u8);
        let ghost done = seq![10u8];
        let args = split_words(&self.input_buffer);
        if args.len() == 0 {
            assert(done + command_output(ws) =~= done);
            return false;
        }
        if chars_eq_str(&args[0], "help") {
            write_more(writer, HELP_TEXT, Ghost(w0), Ghost(done));
            false
        } else if chars_eq_str(&args[0], "echo") {
            if args.len() == 1 {
                write_more(writer, ECHO_USAGE, Ghost(w0), Ghost(done));
            } else {
                cmd_echo_words(writer, &args, Ghost(ws), Ghost(w0), Ghost(done));
                assert(done + ascii_bytes(join_words(ws.skip(1))).push(10u8) =~= done + command_output(ws));
            }
            false
        } else if chars_eq_str(&args[0], "clear") {
            let mut k: usize = 0;
            while k < 25
                invariant
                    0 <= k <= 25,
                    writer.wf(),
                    writer@ == write_bytes_spec(w0, done + Seq::new(k as nat, |i: int| 10u8)),
                decreases 25 - k,
            {
                proof {
                    lemma_write_bytes_push(w0, done + Seq::new(k as nat, |i: int| 10u8), 10u8);
                    assert((done + Seq::new(k as nat, |i: int| 10u8)).push(10u8) =~= done + Seq::new((k + 1) as nat, |i: int| 10u8));
                }
                writer.put_byte(10u8);
                k = k + 1;
            }
            false
        } else if chars_eq_str(&args[0], "run") {
            assert(done + command_output(ws) =~= done);
            true
        } else {
            write_more(writer, UNKNOWN_COMMAND, Ghost(w0), Ghost(done));
            write_more_chars(writer, &args[0], Ghost(w0), Ghost(done + UNKNOWN_COMMAND.spec_bytes()));
            let ghost before = done + UNKNOWN_COMMAND.spec_bytes() + ascii_bytes(ws[0]);
            proof {
                lemma_write_bytes_push(w0, before, 10u8);
                assert(before.push(10u8) =~= done + command_output(ws));
            }
            writer.put_byte(10u8);
            false
        }
    }

    /// Handles a key: moves the cursor, edits the line, or runs the line as
    /// a command, and redraws the screen. Returns `true` when the command is
    /// `run`: the caller then starts the task executor, which never returns.
    pub fn handle_key(&mut self, key: ShellKey, writer: &mut Writer) -> (r: bool)
        requires
            old(self).wf(),
            old(writer).wf(),
            key matches ShellKey::Char(c) ==> (c as int) < 128,
        ensures
            final(self).wf(),
            final(writer).wf(),
            final(self).prompt_bytes() == old(self).prompt_bytes(),
            (final(self).state(), final(writer)@, r) == handle_key_spec(old(self).state(), old(writer)@, old(self).prompt_bytes(), key),
    {
        match key {
            ShellKey::ArrowLeft => {
                if self.cursor_position > 0 {
                    self.cursor_position = self.cursor_position - 1;
                    self.redraw_line(writer);
                }
                false
            },
            ShellKey::ArrowRight => {
                if self.cursor_position < self.input_buffer.len() {
                    self.cursor_position = self.cursor_position + 1;
                    self.redraw_line(writer);
                }
                false
            },
            ShellKey::Backspace => {
                if self.cursor_position > 0 {
                    self.input_buffer.remove(self.cursor_position - 1);
                    self.cursor_position = self.cursor_position - 1;
                    assert(forall|i: int| 0 <= i < self.input_buffer@.len() ==> #[trigger] self.input_buffer@[i] == old(self).input_buffer@[if i < self.cursor_position { i } else { i + 1 }]);
                    self.redraw_line(writer);
                }
                false
            },
            ShellKey::Delete => {
                if self.cursor_position < self.input_buffer.len() {
                    self.input_buffer.remove(self.cursor_position);
                    assert(forall|i: int| 0 <= i < self.input_buffer@.len() ==> #[trigger] self.input_buffer@[i] == old(self).input_buffer@[if i < self.cursor_position { i } else { i + 1 }]);
                    self.redraw_line(writer);
                }
                false
            },
            ShellKey::OtherRaw => false,
            ShellKey::Char(c) => {
                if c == '\n' {
                    let run = self.execute_command(writer);
                    if run {
                        return true;
                    }
                    self.input_buffer = Vec::new();
                    self.cursor_position = 0;
                    writer.write_string(self.prompt);
                    false
                } else {
                    self.input_buffer.insert(self.cursor_position, c);
                    assert(self.input_buffer.len() == old(self).input_buffer@.len() + 1);
                    self.cursor_position = self.cursor_position + 1;
                    assert forall|i: int| 0 <= i < self.input_buffer@.len() implies (#[trigger] self.input_buffer@[i] as int) < 128 by {
                        if i + 1 < self.cursor_position {
                            assert(self.input_buffer@[i] == old(self).input_buffer@[i]);
                        } else if i + 1 > self.cursor_position {
                            assert(self.input_buffer@[i] == old(self).input_buffer@[i - 1]);
                        }
                    }
                    self.redraw_line(writer);
                    false
                }
            },
        }
    }
}

} // verus!
