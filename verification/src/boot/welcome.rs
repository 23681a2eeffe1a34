//! The boot banner and welcome text.
use vstd::prelude::*;
use vstd::string::*;

use crate::io::vga_buffer::{write_bytes_spec, Writer};

verus! {

/// The logo shown at boot.
pub const BANNER: &'static str = "\n  _       _                    ___    ____\n | |__   | |   ___     __ _   / _ \\  / ___|\n | '_ \\  | |  / _ \\   / _` | | | | | \\___ \\\n | |_) | | | | (_) | | (_| | | |_| |  ___) |\n |_.__/  |_|  \\___/   \\__, |  \\___/  |____/\n                      |___/\n";

/// The greeting shown after the logo.
pub const WELCOME_TEXT: &'static str = "\nWelcome to blogOS!\nType 'help' for a list of commands.\n";

/// Shows the logo, then the greeting.
pub fn show_welcome(writer: &mut Writer)
    requires
        old(writer).wf(),
    ensures
        final(writer).wf(),
        final(writer)@ == write_bytes_spec(
            write_bytes_spec(old(writer)@, BANNER.spec_bytes()),
            WELCOME_TEXT.spec_bytes(),
        ),
{
    writer.write_string(BANNER);
    typewriter_print(writer, WELCOME_TEXT, 50);
}

/// Prints `text` one character at a time. The pause of `delay_ms`
/// milliseconds between characters is switched off.
pub fn typewriter_print(writer: &mut Writer, text: &str, delay_ms: u64)
    requires
        old(writer).wf(),
    ensures
        final(writer).wf(),
        final(writer)@ == write_bytes_spec(old(writer)@, text.spec_bytes()),
{
    writer.write_string(text);
}

} // verus!
