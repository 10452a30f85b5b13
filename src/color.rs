//! The closed table of color names and the escape sequence of each color.

use vstd::prelude::*;
use vstd::string::*;
use vstd::utf8::*;

verus! {

/// A foreground color that a rule may name.
#[derive(Clone, Copy, Debug, PartialEq, Eq, Structural)]
pub enum Color {
    Black,
    Blue,
    Cyan,
    Default,
    Green,
    LightBlack,
    LightBlue,
    LightCyan,
    LightGreen,
    LightMagenta,
    LightRed,
    LightWhite,
    LightYellow,
    Magenta,
    Red,
    White,
    Yellow,
}

/// The color that `name` denotes, if it is one of the table's names.
pub open spec fn color_named(name: Seq<char>) -> Option<Color> {
    if name == "Black"@ {
        Some(Color::Black)
    } else if name == "Blue"@ {
        Some(Color::Blue)
    } else if name == "Cyan"@ {
        Some(Color::Cyan)
    } else if name == "Default"@ {
        Some(Color::Default)
    } else if name == "Green"@ {
        Some(Color::Green)
    } else if name == "LightBlack"@ {
        Some(Color::LightBlack)
    } else if name == "LightBlue"@ {
        Some(Color::LightBlue)
    } else if name == "LightCyan"@ {
        Some(Color::LightCyan)
    } else if name == "LightGreen"@ {
        Some(Color::LightGreen)
    } else if name == "LightMagenta"@ {
        Some(Color::LightMagenta)
    } else if name == "LightRed"@ {
        Some(Color::LightRed)
    } else if name == "LightWhite"@ {
        Some(Color::LightWhite)
    } else if name == "LightYellow"@ {
        Some(Color::LightYellow)
    } else if name == "Magenta"@ {
        Some(Color::Magenta)
    } else if name == "Red"@ {
        Some(Color::Red)
    } else if name == "White"@ {
        Some(Color::White)
    } else if name == "Yellow"@ {
        Some(Color::Yellow)
    } else {
        None
    }
}

/// The entry of the 256-color palette that a color selects; `Default`
/// selects none and resets the foreground instead.
pub open spec fn palette_index(c: Color) -> Option<u8> {
    match c {
        Color::Black => Some(0u8),
        Color::Red => Some(1u8),
        Color::Green => Some(2u8),
        Color::Yellow => Some(3u8),
        Color::Blue => Some(4u8),
        Color::Magenta => Some(5u8),
        Color::Cyan => Some(6u8),
        Color::White => Some(7u8),
        Color::LightBlack => Some(8u8),
        Color::LightRed => Some(9u8),
        Color::LightGreen => Some(10u8),
        Color::LightYellow => Some(11u8),
        Color::LightBlue => Some(12u8),
        Color::LightMagenta => Some(13u8),
        Color::LightCyan => Some(14u8),
        Color::LightWhite => Some(15u8),
        Color::Default => None,
    }
}

/// The decimal digit `d` as a character.
pub open spec fn digit(d: nat) -> char {
    if d == 0 {
        '0'
    } else if d == 1 {
        '1'
    } else if d == 2 {
        '2'
    } else if d == 3 {
        '3'
    } else if d == 4 {
        '4'
    } else if d == 5 {
        '5'
    } else if d == 6 {
        '6'
    } else if d == 7 {
        '7'
    } else if d == 8 {
        '8'
    } else {
        '9'
    }
}

/// `n` written in decimal, without leading zeros.
pub open spec fn decimal(n: nat) -> Seq<char>
    decreases n,
{
    if n < 10 {
        seq![digit(n)]
    } else {
        decimal(n / 10) + seq![digit(n % 10)]
    }
}

/// The control sequence introducer: escape, then `[`.
pub open spec fn csi() -> Seq<char> {
    seq!['\x1b', '[']
}

/// The sequence that selects palette entry `n` as foreground color.
pub open spec fn palette_sequence(n: u8) -> Seq<char> {
    csi() + seq!['3', '8', ';', '5', ';'] + decimal(n as nat) + seq!['m']
}

/// The sequence that resets the foreground to the terminal's default.
pub open spec fn reset_sequence() -> Seq<char> {
    csi() + seq!['3', '9', 'm']
}

/// The escape sequence written to switch to color `c`.
pub open spec fn fg_sequence(c: Color) -> Seq<char> {
    match palette_index(c) {
        Some(n) => palette_sequence(n),
        None => reset_sequence(),
    }
}

/// Relies on termion::color::AnsiValue::fg_string, which writes CSI, then
/// `38;5;`, then the palette index in decimal, then `m`.
#[verifier::external_body]
fn palette_fg(n: u8) -> (r: String)
    ensures
        r@ == palette_sequence(n),
{
    termion::color::AnsiValue(n).fg_string()
}

/// Relies on termion::color::Reset::fg_str, which is CSI then `39m`.
#[verifier::external_body]
fn reset_fg() -> (r: String)
    ensures
        r@ == reset_sequence(),
{
    termion::color::Reset.fg_str().to_string()
}

/// Whether two strings hold the same characters.
pub fn same_text(a: &str, b: &str) -> (r: bool)
    ensures
        r == (a@ == b@),
{
    let x = a.as_bytes();
    let y = b.as_bytes();
    proof {
        encode_utf8_decode_utf8(a@);
        encode_utf8_decode_utf8(b@);
    }
    if x.len() != y.len() {
        return false;
    }
    let mut i: usize = 0;
    while i < x.len()
        invariant
            x@ == encode_utf8(a@),
            y@ == encode_utf8(b@),
            decode_utf8(x@) == a@,
            decode_utf8(y@) == b@,
            x@.len() == y@.len(),
            i <= x@.len(),
            forall|k: int| 0 <= k < i ==> x@[k] == y@[k],
        decreases x@.len() - i,
    {
        if x[i] != y[i] {
            assert(x@[i as int] != y@[i as int]);
            return false;
        }
        i = i + 1;
    }
    assert(x@ =~= y@);
    true
}

impl Color {
    /// The color that `name` denotes; `None` for a name outside the table.
    pub fn from_name(name: &str) -> (r: Option<Color>)
        ensures
            r == color_named(name@),
    {
        if same_text(name, "Black") {
            Some(Color::Black)
        } else if same_text(name, "Blue") {
            Some(Color::Blue)
        } else if same_text(name, "Cyan") {
            Some(Color::Cyan)
        } else if same_text(name, "Default") {
            Some(Color::Default)
        } else if same_text(name, "Green") {
            Some(Color::Green)
        } else if same_text(name, "LightBlack") {
            Some(Color::LightBlack)
        } else if same_text(name, "LightBlue") {
            Some(Color::LightBlue)
        } else if same_text(name, "LightCyan") {
            Some(Color::LightCyan)
        } else if same_text(name, "LightGreen") {
            Some(Color::LightGreen)
        } else if same_text(name, "LightMagenta") {
            Some(Color::LightMagenta)
        } else if same_text(name, "LightRed") {
            Some(Color::LightRed)
        } else if same_text(name, "LightWhite") {
            Some(Color::LightWhite)
        } else if same_text(name, "LightYellow") {
            Some(Color::LightYellow)
        } else if same_text(name, "Magenta") {
            Some(Color::Magenta)
        } else if same_text(name, "Red") {
            Some(Color::Red)
        } else if same_text(name, "White") {
            Some(Color::White)
        } else if same_text(name, "Yellow") {
            Some(Color::Yellow)
        } else {
            None
        }
    }

    /// The palette entry this color selects (`None` for `Default`).
    pub fn palette_index(&self) -> (r: Option<u8>)
        ensures
            r == palette_index(*self),
    {
        match self {
            Color::Black => Some(0u8),
            Color::Red => Some(1u8),
            Color::Green => Some(2u8),
            Color::Yellow => Some(3u8),
            Color::Blue => Some(4u8),
            Color::Magenta => Some(5u8),
            Color::Cyan => Some(6u8),
            Color::White => Some(7u8),
            Color::LightBlack => Some(8u8),
            Color::LightRed => Some(9u8),
            Color::LightGreen => Some(10u8),
            Color::LightYellow => Some(11u8),
            Color::LightBlue => Some(12u8),
            Color::LightMagenta => Some(13u8),
            Color::LightCyan => Some(14u8),
            Color::LightWhite => Some(15u8),
            Color::Default => None,
        }
    }

    /// The escape sequence that switches the terminal's foreground to this color.
    pub fn escape(&self) -> (r: String)
        ensures
            r@ == fg_sequence(*self),
    {
        match self.palette_index() {
            Some(n) => palette_fg(n),
            None => reset_fg(),
        }
    }
}

} // verus!
