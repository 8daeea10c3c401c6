use vstd::prelude::*;

use crate::decimal::int_decimal;
use crate::text::owned;

verus! {

/// The terminal colours that the picker's styles use.
#[derive(Copy, Clone, Debug, PartialEq, Eq, Structural)]
pub enum TermColor {
    Magenta,
    Rgb { r: u8, g: u8, b: u8 },
}

/// The text attributes whose escape sequences the picker writes.
#[derive(Copy, Clone, Debug, PartialEq, Eq, Structural)]
pub enum TextAttribute {
    Reset,
}

/// Whether crossterm leaves colour codes out in this process.  crossterm does
/// so when the `NO_COLOR` environment variable is set and not empty; it reads
/// the variable once, on first use, and keeps the answer for the rest of the
/// process (only crossterm's `set_ansi_color_disabled` would change it, and
/// nothing here calls it).  A value of this type is that answer.
///
/// The field is private and `color_mode` is the only code that makes a value,
/// so every `ColorMode` holds the setting crossterm itself uses.  The
/// contracts of `styled_string` and `foreground_sequence` rest on this: those
/// functions do not pass their `mode` to crossterm, which reads its own stored
/// setting, and their results are stated in terms of `mode`.
#[derive(Clone, Copy)]
pub struct ColorMode {
    no_color: bool,
}

impl View for ColorMode {
    type V = bool;

    closed spec fn view(&self) -> bool {
        self.no_color
    }
}

/// Calls crossterm's `Colored::ansi_color_disabled_memoized`.  Nothing is
/// promised of the result: it comes from the environment.
#[verifier::external_body]
fn color_mode() -> ColorMode {
    ColorMode { no_color: crossterm::style::Colored::ansi_color_disabled_memoized() }
}

/// The colour parameters that crossterm writes for a colour.
pub open spec fn color_code(color: TermColor) -> Seq<char> {
    match color {
        TermColor::Magenta => "5;13"@,
        TermColor::Rgb { r, g, b } => "2;"@ + int_decimal(r as int) + ";"@ + int_decimal(g as int)
            + ";"@ + int_decimal(b as int),
    }
}

/// The escape sequence that crossterm writes to set the foreground colour, in
/// a process whose colour setting is `no_color`: the colour parameters are
/// left out when colours are off.
pub open spec fn foreground_sequence_text(no_color: bool, color: TermColor) -> Seq<char> {
    "\u{1b}["@ + (if no_color {
        Seq::empty()
    } else {
        "38;"@ + color_code(color)
    }) + "m"@
}

/// The escape sequence that crossterm writes to set an attribute.
pub open spec fn attribute_sequence_text(attr: TextAttribute) -> Seq<char> {
    match attr {
        TextAttribute::Reset => "\u{1b}[0m"@,
    }
}

/// The text that crossterm writes for `text` in foreground colour `fg`, bold
/// or not, in a process whose colour setting is `no_color`: the colour, the
/// bold attribute, the text, then a full reset after bold text, or else a
/// reset of the foreground colour.
pub open spec fn styled_text(
    no_color: bool,
    fg: Option<TermColor>,
    bold: bool,
    text: Seq<char>,
) -> Seq<char> {
    let color = match fg {
        Some(c) => foreground_sequence_text(no_color, c),
        None => Seq::empty(),
    };
    let attrs = if bold {
        "\u{1b}[1m"@
    } else {
        Seq::empty()
    };
    let reset = if bold {
        "\u{1b}[0m"@
    } else if fg is Some {
        "\u{1b}["@ + (if no_color {
            Seq::empty()
        } else {
            "39"@
        }) + "m"@
    } else {
        Seq::empty()
    };
    color + attrs + text + reset
}

/// Formats `text` through crossterm's `StyledContent` with the given
/// foreground colour and, when `bold`, the bold attribute.  crossterm reads the
/// process's colour setting itself; `mode` is that setting as `color_mode`
/// returned it (see `ColorMode`).  Trusted: the result is the text that
/// `styled_text` spells out, as crossterm's `PrintStyledContent` writes it.
/// This holds where crossterm writes ANSI sequences directly, as on Unix; on
/// Windows crossterm first asks the console whether it takes ANSI codes, which
/// this contract does not cover.
#[verifier::external_body]
fn styled_string(mode: ColorMode, fg: Option<TermColor>, bold: bool, text: &str) -> (s: String)
    ensures
        s@ == styled_text(mode@, fg, bold, text@),
{
    let attributes = match bold {
        true => crossterm::style::Attributes::from(crossterm::style::Attribute::Bold),
        false => crossterm::style::Attributes::default(),
    };
    let style = crossterm::style::ContentStyle {
        foreground_color: match fg {
            Some(TermColor::Magenta) => Some(crossterm::style::Color::Magenta),
            Some(TermColor::Rgb { r, g, b }) => Some(crossterm::style::Color::Rgb { r, g, b }),
            None => None,
        },
        background_color: None,
        underline_color: None,
        attributes,
    };
    format!("{}", crossterm::style::StyledContent::new(style, text))
}

/// Formats crossterm's `SetAttribute` command.  Trusted: the result is the
/// escape sequence that `attribute_sequence_text` spells out.  This holds
/// where crossterm writes ANSI sequences directly, as on Unix (see
/// `styled_string`).
#[verifier::external_body]
fn attribute_sequence(attr: TextAttribute) -> (s: String)
    ensures
        s@ == attribute_sequence_text(attr),
{
    let a = match attr {
        TextAttribute::Reset => crossterm::style::Attribute::Reset,
    };
    format!("{}", crossterm::style::SetAttribute(a))
}

/// Formats crossterm's `SetForegroundColor` command.  crossterm reads the
/// process's colour setting itself; `mode` is that setting as `color_mode`
/// returned it (see `ColorMode`).  Trusted: the result is the escape sequence
/// that `foreground_sequence_text` spells out.  This holds where crossterm
/// writes ANSI sequences directly, as on Unix (see `styled_string`).
#[verifier::external_body]
fn foreground_sequence(mode: ColorMode, color: TermColor) -> (s: String)
    ensures
        s@ == foreground_sequence_text(mode@, color),
{
    let c = match color {
        TermColor::Magenta => crossterm::style::Color::Magenta,
        TermColor::Rgb { r, g, b } => crossterm::style::Color::Rgb { r, g, b },
    };
    format!("{}", crossterm::style::SetForegroundColor(c))
}

/// The colour of text outside matches.
pub open spec fn base_text_color() -> TermColor {
    TermColor::Rgb { r: 115, g: 121, b: 148 }
}

/// A foreground colour and whether the text is bold, with the colour setting
/// of the process that made the style.
#[derive(Clone, Copy)]
pub struct StyleSpec {
    fg: Option<TermColor>,
    bold: bool,
    mode: ColorMode,
}

impl StyleSpec {
    pub closed spec fn color(&self) -> Option<TermColor> {
        self.fg
    }

    pub closed spec fn is_bold(&self) -> bool {
        self.bold
    }

    pub closed spec fn no_color(&self) -> bool {
        self.mode@
    }

    /// What `apply` makes of `text`.
    pub open spec fn styled(&self, text: Seq<char>) -> Seq<char> {
        styled_text(self.no_color(), self.color(), self.is_bold(), text)
    }

    /// A plain style with foreground colour `fg`.
    pub fn new(fg: Option<TermColor>) -> (s: Self)
        ensures
            s.color() == fg,
            !s.is_bold(),
    {
        Self::with_mode(fg, color_mode())
    }

    /// A plain style with foreground colour `fg` under the colour setting
    /// `mode`.
    fn with_mode(fg: Option<TermColor>, mode: ColorMode) -> (s: Self)
        ensures
            s.color() == fg,
            !s.is_bold(),
            s.no_color() == mode@,
    {
        Self { fg, bold: false, mode }
    }

    /// The same style, bold.
    pub fn bold(self) -> (s: Self)
        ensures
            s.color() == self.color(),
            s.is_bold(),
            s.no_color() == self.no_color(),
    {
        let mut s = self;
        s.bold = true;
        s
    }

    /// `text` rendered in this style.
    pub fn apply(self, text: &str) -> (s: String)
        ensures
            s@ == self.styled(text@),
    {
        styled_string(self.mode, self.fg, self.bold, text)
    }
}

/// The raw escape sequences that frame unstyled text.
#[derive(Clone)]
pub struct StyleSequences {
    pub reset: String,
    pub base: String,
}

impl StyleSequences {
    /// The attribute reset, and the base colour of unstyled text.
    pub fn new() -> (s: Self)
        ensures
            s.reset@ == attribute_sequence_text(TextAttribute::Reset),
            exists|no_color: bool| s.base@ == foreground_sequence_text(no_color, base_text_color()),
    {
        Self::with_mode(color_mode())
    }

    /// The attribute reset, and the base colour under the colour setting
    /// `mode`.
    fn with_mode(mode: ColorMode) -> (s: Self)
        ensures
            s.reset@ == attribute_sequence_text(TextAttribute::Reset),
            s.base@ == foreground_sequence_text(mode@, base_text_color()),
    {
        Self {
            reset: attribute_sequence(TextAttribute::Reset),
            base: foreground_sequence(mode, TermColor::Rgb { r: 115, g: 121, b: 148 }),
        }
    }
}

/// The picker's texts, label characters and styles.
#[derive(Clone)]
pub struct Config {
    pub prompt_placeholder_text: String,
    pub prompt_indicator: String,
    pub label_characters: String,
    pub trimmable_chars: String,
    pub highlight_style: StyleSpec,
    pub current_style: StyleSpec,
    pub label_style: StyleSpec,
    pub prompt_style: StyleSpec,
    pub base_style: StyleSpec,
    pub style_sequences: StyleSequences,
}

pub open spec fn has_style(s: StyleSpec, fg: TermColor, bold: bool) -> bool {
    s.color() == Some(fg) && s.is_bold() == bold
}

impl Config {
    /// The built-in configuration.
    pub fn defaults() -> (c: Self)
        ensures
            c.prompt_placeholder_text@ == "search..."@,
            c.prompt_indicator@ == "\u{276f}"@,
            c.label_characters@ == "jklhgfdsauiopytrewqnmvbcxz"@,
            c.trimmable_chars@ == "()[]{}\"'`,.:;"@,
            has_style(c.highlight_style, TermColor::Rgb { r: 186, g: 187, b: 242 }, true),
            has_style(c.current_style, TermColor::Rgb { r: 239, g: 159, b: 119 }, true),
            has_style(c.label_style, TermColor::Rgb { r: 166, g: 209, b: 138 }, true),
            has_style(c.prompt_style, TermColor::Magenta, true),
            has_style(c.base_style, base_text_color(), false),
            c.style_sequences.reset@ == attribute_sequence_text(TextAttribute::Reset),
            c.style_sequences.base@ == foreground_sequence_text(
                c.base_style.no_color(),
                base_text_color(),
            ),
            c.highlight_style.no_color() == c.base_style.no_color(),
            c.current_style.no_color() == c.base_style.no_color(),
            c.label_style.no_color() == c.base_style.no_color(),
            c.prompt_style.no_color() == c.base_style.no_color(),
    {
        let mode = color_mode();
        Self {
            prompt_placeholder_text: owned("search..."),
            prompt_indicator: owned("\u{276f}"),
            label_characters: owned("jklhgfdsauiopytrewqnmvbcxz"),
            trimmable_chars: owned("()[]{}\"'`,.:;"),
            highlight_style: StyleSpec::with_mode(
                Some(TermColor::Rgb { r: 186, g: 187, b: 242 }),
                mode,
            ).bold(),
            current_style: StyleSpec::with_mode(
                Some(TermColor::Rgb { r: 239, g: 159, b: 119 }),
                mode,
            ).bold(),
            label_style: StyleSpec::with_mode(
                Some(TermColor::Rgb { r: 166, g: 209, b: 138 }),
                mode,
            ).bold(),
            prompt_style: StyleSpec::with_mode(Some(TermColor::Magenta), mode).bold(),
            base_style: StyleSpec::with_mode(Some(TermColor::Rgb { r: 115, g: 121, b: 148 }), mode),
            style_sequences: StyleSequences::with_mode(mode),
        }
    }
}

} // verus!
