//! Display styles and the theme that assigns one to each kind of token.

use vstd::prelude::*;

use crate::text::decimal;

verus! {

/// A foreground colour of the terminal.
#[derive(Clone, Copy, Debug, PartialEq, Eq)]
pub enum Color {
    Black,
    Red,
    Green,
    Yellow,
    Blue,
    Purple,
    Cyan,
    White,
    /// One of the 256 colours of the extended palette.
    Fixed(u8),
    /// A 24-bit colour, as red, green and blue.
    RGB(u8, u8, u8),
}

/// How a token is displayed: an optional foreground colour and a weight.
#[derive(Clone, Copy, Debug, PartialEq, Eq)]
pub struct Style {
    pub foreground: Option<Color>,
    pub is_bold: bool,
}

/// The kinds of token that a theme styles.
#[derive(Clone, Copy, Debug, PartialEq, Eq)]
pub enum Slot {
    StatusInfo,
    StatusSuccess,
    StatusError,
    StatusMessage,
    HeaderName,
    HeaderValue,
    Key,
    BoolValue,
    NullValue,
    NumberValue,
    StringValue,
}

/// A style for every kind of token. A theme is never partial: the theme that
/// styles nothing holds the plain style in every slot.
#[derive(Clone, Copy, Debug, PartialEq, Eq)]
pub struct Theme {
    pub status_info: Style,
    pub status_success: Style,
    pub status_message: Style,
    pub header_name: Style,
    pub header_value: Style,
    pub key: Style,
    pub bool_value: Style,
    pub null_value: Style,
    pub number_value: Style,
    pub status_error: Style,
    pub string_value: Style,
}

/// The parameters of the escape sequence that selects `c` as foreground.
pub open spec fn color_code(c: Color) -> Seq<char> {
    match c {
        Color::Black => seq!['3', '0'],
        Color::Red => seq!['3', '1'],
        Color::Green => seq!['3', '2'],
        Color::Yellow => seq!['3', '3'],
        Color::Blue => seq!['3', '4'],
        Color::Purple => seq!['3', '5'],
        Color::Cyan => seq!['3', '6'],
        Color::White => seq!['3', '7'],
        Color::Fixed(n) => seq!['3', '8', ';', '5', ';'] + decimal(n as nat),
        Color::RGB(r, g, b) => seq!['3', '8', ';', '2', ';'] + decimal(r as nat) + seq![';']
            + decimal(g as nat) + seq![';'] + decimal(b as nat),
    }
}

/// The escape sequence that switches `s` on; nothing for the plain style.
pub open spec fn style_prefix(s: Style) -> Seq<char> {
    if s.is_plain() {
        Seq::empty()
    } else {
        seq!['\u{1b}', '['] + (if s.is_bold {
            seq!['1']
        } else {
            Seq::empty()
        }) + (match s.foreground {
            Some(c) => (if s.is_bold {
                seq![';']
            } else {
                Seq::empty()
            }) + color_code(c),
            None => Seq::empty(),
        }) + seq!['m']
    }
}

/// The escape sequence that switches `s` off again; nothing for the plain
/// style.
pub open spec fn style_suffix(s: Style) -> Seq<char> {
    if s.is_plain() {
        Seq::empty()
    } else {
        seq!['\u{1b}', '[', '0', 'm']
    }
}

/// `text` as it is displayed in style `s`.
pub open spec fn painted(s: Style, text: Seq<char>) -> Seq<char> {
    style_prefix(s) + text + style_suffix(s)
}

impl Color {
    /// This colour at normal weight.
    pub fn normal(self) -> (s: Style)
        ensures
            s == (Style { foreground: Some(self), is_bold: false }),
    {
        Style { foreground: Some(self), is_bold: false }
    }

    /// This colour in bold.
    pub fn bold(self) -> (s: Style)
        ensures
            s == (Style { foreground: Some(self), is_bold: true }),
    {
        Style { foreground: Some(self), is_bold: true }
    }
}

impl Style {
    /// The style that changes nothing.
    pub open spec fn plain() -> Style {
        Style { foreground: None, is_bold: false }
    }

    /// Whether this style changes nothing.
    pub open spec fn is_plain(self) -> bool {
        self.foreground is None && !self.is_bold
    }

}

impl Default for Style {
    fn default() -> (s: Style)
        ensures
            s == Style::plain(),
    {
        Style { foreground: None, is_bold: false }
    }
}

/// Displays `text` in style `s`.
///
/// Trusted: this is `ansi_term::Style::paint`, followed by the `Display` of
/// the `ANSIString` that it returns, for the style of that crate with the
/// foreground and weight of `s` and no other attribute. The contract claims
/// what `write_prefix` and `write_suffix` of that crate write round the text:
/// nothing for the plain style; otherwise `ESC [`, then `1` if bold, then the
/// colour's code, the two separated by `;`, then `m`; the text; and the reset
/// sequence `ESC [ 0 m`.
#[verifier::external_body]
pub(crate) fn paint(s: Style, text: &str) -> (out: String)
    ensures
        out@ == painted(s, text@),
{
    let mut style = ansi_term::Style::new();
    style.is_bold = s.is_bold;
    style.foreground = s.foreground.map(|c| match c {
        Color::Black => ansi_term::Colour::Black,
        Color::Red => ansi_term::Colour::Red,
        Color::Green => ansi_term::Colour::Green,
        Color::Yellow => ansi_term::Colour::Yellow,
        Color::Blue => ansi_term::Colour::Blue,
        Color::Purple => ansi_term::Colour::Purple,
        Color::Cyan => ansi_term::Colour::Cyan,
        Color::White => ansi_term::Colour::White,
        Color::Fixed(n) => ansi_term::Colour::Fixed(n),
        Color::RGB(r, g, b) => ansi_term::Colour::RGB(r, g, b),
    });
    style.paint(text).to_string()
}

impl Theme {
    /// The style of the given kind of token.
    pub open spec fn style_of(self, slot: Slot) -> Style {
        match slot {
            Slot::StatusInfo => self.status_info,
            Slot::StatusSuccess => self.status_success,
            Slot::StatusError => self.status_error,
            Slot::StatusMessage => self.status_message,
            Slot::HeaderName => self.header_name,
            Slot::HeaderValue => self.header_value,
            Slot::Key => self.key,
            Slot::BoolValue => self.bool_value,
            Slot::NullValue => self.null_value,
            Slot::NumberValue => self.number_value,
            Slot::StringValue => self.string_value,
        }
    }

    /// The style of the given kind of token. Every slot resolves.
    pub fn resolve(&self, slot: Slot) -> (s: Style)
        ensures
            s == self.style_of(slot),
    {
        match slot {
            Slot::StatusInfo => self.status_info,
            Slot::StatusSuccess => self.status_success,
            Slot::StatusError => self.status_error,
            Slot::StatusMessage => self.status_message,
            Slot::HeaderName => self.header_name,
            Slot::HeaderValue => self.header_value,
            Slot::Key => self.key,
            Slot::BoolValue => self.bool_value,
            Slot::NullValue => self.null_value,
            Slot::NumberValue => self.number_value,
            Slot::StringValue => self.string_value,
        }
    }

    /// Whether every slot holds the plain style.
    pub open spec fn is_empty(self) -> bool {
        forall|slot: Slot| #[trigger] self.style_of(slot).is_plain()
    }
}

/// The colour-bearing theme, for an interactive terminal.
pub open spec fn spec_default_theme() -> Theme {
    Theme {
        bool_value: Style { foreground: Some(Color::Red), is_bold: false },
        header_name: Style { foreground: Some(Color::Black), is_bold: true },
        header_value: Style { foreground: Some(Color::Cyan), is_bold: false },
        key: Style { foreground: Some(Color::Blue), is_bold: false },
        null_value: Style { foreground: Some(Color::Black), is_bold: true },
        number_value: Style { foreground: Some(Color::Purple), is_bold: false },
        status_error: Style { foreground: Some(Color::Red), is_bold: false },
        status_info: Style { foreground: Some(Color::Cyan), is_bold: false },
        status_message: Style { foreground: Some(Color::Black), is_bold: true },
        status_success: Style { foreground: Some(Color::Green), is_bold: false },
        string_value: Style { foreground: Some(Color::Cyan), is_bold: false },
    }
}

/// The theme that styles nothing.
pub open spec fn spec_empty_theme() -> Theme {
    Theme {
        bool_value: Style::plain(),
        header_name: Style::plain(),
        header_value: Style::plain(),
        key: Style::plain(),
        null_value: Style::plain(),
        number_value: Style::plain(),
        status_error: Style::plain(),
        status_info: Style::plain(),
        status_message: Style::plain(),
        status_success: Style::plain(),
        string_value: Style::plain(),
    }
}

/// The colour-bearing theme, for an interactive terminal.
#[verifier::when_used_as_spec(spec_default_theme)]
pub fn default_theme() -> (t: Theme)
    ensures
        t == spec_default_theme(),
{
    Theme {
        bool_value: Color::Red.normal(),
        header_name: Color::Black.bold(),
        header_value: Color::Cyan.normal(),
        key: Color::Blue.normal(),
        null_value: Color::Black.bold(),
        number_value: Color::Purple.normal(),
        status_error: Color::Red.normal(),
        status_info: Color::Cyan.normal(),
        status_message: Color::Black.bold(),
        status_success: Color::Green.normal(),
        string_value: Color::Cyan.normal(),
    }
}

/// The theme that styles nothing.
#[verifier::when_used_as_spec(spec_empty_theme)]
pub fn empty_theme() -> (t: Theme)
    ensures
        t == spec_empty_theme(),
        t.is_empty(),
{
    Theme {
        bool_value: Style::default(),
        header_name: Style::default(),
        header_value: Style::default(),
        key: Style::default(),
        null_value: Style::default(),
        number_value: Style::default(),
        status_error: Style::default(),
        status_info: Style::default(),
        status_message: Style::default(),
        status_success: Style::default(),
        string_value: Style::default(),
    }
}

/// Text painted in the plain style is the text itself.
pub proof fn lemma_plain_paint(s: Style, text: Seq<char>)
    requires
        s.is_plain(),
    ensures
        painted(s, text) == text,
{
    assert(painted(s, text) =~= text);
}

} // verus!
