//! The JAMA palette and how it degrades: truecolor when the terminal
//! supports it, 16-colour ANSI otherwise, and no colour at all when
//! `NO_COLOR` is set, `--no-color` is passed, or stdout isn't a TTY.

use vstd::prelude::*;

use crate::text::{append_chars, append_str, chars_of, string_of, uint_chars, uint_text};

verus! {

#[derive(Debug, Clone, Copy, PartialEq, Eq, Structural)]
pub enum Tone {
    /// #B5300F — negatives, errors.
    Signal,
    /// #F2A93B — warnings, pending `!`.
    Amber,
    /// #1E6F6B — balanced, cleared, positive.
    Teal,
    /// Ink-on-stock brand chip, used only for the splash mark.
    Brand,
}

/// How much colour to use.
#[derive(Debug, Clone, Copy)]
pub struct Palette {
    enabled: bool,
    truecolor: bool,
}

impl View for Palette {
    /// (colour enabled, 24-bit colour).
    type V = (bool, bool);

    closed spec fn view(&self) -> (bool, bool) {
        (self.enabled, self.truecolor)
    }
}

/// `COLORTERM` announces 24-bit colour.
pub open spec fn says_truecolor(colorterm: Option<Seq<char>>) -> bool {
    match colorterm {
        Some(v) => crate::text::contains_seq(v, "truecolor"@) || crate::text::contains_seq(v, "24bit"@),
        None => false,
    }
}

/// `\x1b[38;2;{r};{g};{b}m{text}\x1b[0m` or `\x1b[{ansi16}m{text}\x1b[0m`.
pub open spec fn fg_text(truecolor: bool, text: Seq<char>, rgb: (u8, u8, u8), ansi16: u8) -> Seq<char> {
    if truecolor {
        "\x1b[38;2;"@ + uint_text(rgb.0 as nat) + ";"@ + uint_text(rgb.1 as nat) + ";"@ + uint_text(rgb.2 as nat) + "m"@
            + text + "\x1b[0m"@
    } else {
        "\x1b["@ + uint_text(ansi16 as nat) + "m"@ + text + "\x1b[0m"@
    }
}

/// What painting `text` in `tone` writes.
pub open spec fn paint_text(p: (bool, bool), tone: Tone, text: Seq<char>) -> Seq<char> {
    if !p.0 {
        text
    } else {
        match tone {
            Tone::Brand => if p.1 {
                "\x1b[38;2;42;26;18m\x1b[48;2;255;241;220m"@ + text + "\x1b[0m"@
            } else {
                "\x1b[7m"@ + text + "\x1b[0m"@
            },
            Tone::Signal => fg_text(p.1, text, (181, 48, 15), 31),
            Tone::Amber => fg_text(p.1, text, (242, 169, 59), 33),
            Tone::Teal => fg_text(p.1, text, (30, 111, 107), 36),
        }
    }
}

impl Palette {
    /// Decides how much colour to use, honouring (in priority order)
    /// `--no-color`, `NO_COLOR`, and whether stdout is a TTY; truecolor
    /// when enabled and `COLORTERM` says `truecolor` or `24bit`.
    pub fn decide(no_color_flag: bool, no_color_env: bool, is_tty: bool, colorterm: Option<&str>) -> (r: Palette)
        ensures
            r@.0 == (!no_color_flag && !no_color_env && is_tty),
            r@.1 == (r@.0 && says_truecolor(match colorterm {
                Some(v) => Some(v@),
                None => None,
            })),
    {
        let enabled = !no_color_flag && !no_color_env && is_tty;
        let truecolor = enabled && match colorterm {
            Some(v) => {
                let vc = chars_of(v);
                let a = chars_of("truecolor");
                let b = chars_of("24bit");
                crate::text::chars_contains(&vc, &a) || crate::text::chars_contains(&vc, &b)
            },
            None => false,
        };
        Palette { enabled, truecolor }
    }

    /// A palette with the given settings.
    pub fn new(enabled: bool, truecolor: bool) -> (r: Palette)
        ensures
            r@ == (enabled, truecolor),
    {
        Palette { enabled, truecolor }
    }

    pub fn enabled(&self) -> (r: bool)
        ensures
            r == self@.0,
    {
        self.enabled
    }

    /// `text` in `tone` (unchanged when colour is off).
    pub fn paint(&self, tone: Tone, text: &str) -> (r: String)
        ensures
            r@ == paint_text(self@, tone, text@),
    {
        if !self.enabled {
            return String::from_str(text);
        }
        match tone {
            Tone::Brand => {
                let mut v = if self.truecolor {
                    chars_of("\x1b[38;2;42;26;18m\x1b[48;2;255;241;220m")
                } else {
                    chars_of("\x1b[7m")
                };
                append_str(&mut v, text);
                append_str(&mut v, "\x1b[0m");
                string_of(&v)
            },
            Tone::Signal => self.fg(text, (181, 48, 15), 31),
            Tone::Amber => self.fg(text, (242, 169, 59), 33),
            Tone::Teal => self.fg(text, (30, 111, 107), 36),
        }
    }

    /// `text` in a foreground colour: the 24-bit one when truecolor, the
    /// 16-colour code otherwise.
    pub fn fg(&self, text: &str, rgb: (u8, u8, u8), ansi16: u8) -> (r: String)
        ensures
            r@ == fg_text(self@.1, text@, rgb, ansi16),
    {
        if self.truecolor {
            let mut v = chars_of("\x1b[38;2;");
            let a = uint_chars(rgb.0 as u64);
            append_chars(&mut v, &a);
            append_str(&mut v, ";");
            let b = uint_chars(rgb.1 as u64);
            append_chars(&mut v, &b);
            append_str(&mut v, ";");
            let c = uint_chars(rgb.2 as u64);
            append_chars(&mut v, &c);
            append_str(&mut v, "m");
            append_str(&mut v, text);
            append_str(&mut v, "\x1b[0m");
            string_of(&v)
        } else {
            let mut v = chars_of("\x1b[");
            let a = uint_chars(ansi16 as u64);
            append_chars(&mut v, &a);
            append_str(&mut v, "m");
            append_str(&mut v, text);
            append_str(&mut v, "\x1b[0m");
            string_of(&v)
        }
    }
}

/// The character of a table's rule: box-drawing `─` when lines may use
/// Unicode (stdout is a UTF-8 TTY), ASCII `-` otherwise.
pub fn rule_char(unicode_lines: bool) -> (r: char)
    ensures
        r == (if unicode_lines { '\u{2500}' } else { '-' }),
{
    if unicode_lines {
        '\u{2500}'
    } else {
        '-'
    }
}

} // verus!
