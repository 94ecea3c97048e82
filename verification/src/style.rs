//! Styles in the abstract, and the terminal styles that stand for them.

use vstd::prelude::*;
use vstd::std_specs::convert::FromSpecImpl;
use nu_ansi_term::Color as NuColor;
use nu_ansi_term::Style as NuStyle;
use crate::split_and_apply::reset_marker;

verus! {

/// `Color` of `nu_ansi_term`, with its variants as the crate declares them.
#[verifier::external_type_specification]
pub struct ExNuColor(NuColor);

/// `Style` of `nu_ansi_term`, with its fields as the crate declares them.
#[verifier::external_type_specification]
pub struct ExNuStyle(NuStyle);

/// How a token is to look.
#[derive(Clone, Copy, Debug, PartialEq, Eq, PartialOrd, Ord)]
pub struct Style {
    pub fg: Option<Color>,
    pub bg: Option<Color>,
    pub bold: bool,
    pub faint: bool,
    pub italic: bool,
    pub underline: bool,
}

/// The colours of a terminal.
#[derive(Clone, Copy, Debug, PartialEq, Eq, PartialOrd, Ord)]
pub enum Color {
    Black,
    DarkGray,
    Red,
    LightRed,
    Green,
    LightGreen,
    Yellow,
    LightYellow,
    Blue,
    LightBlue,
    Purple,
    LightPurple,
    Magenta,
    LightMagenta,
    Cyan,
    LightCyan,
    White,
    LightGray,
    Default,
}

/// The terminal colour that stands for `color`.
pub open spec fn nu_color(color: Color) -> NuColor {
    match color {
        Color::Black => NuColor::Black,
        Color::DarkGray => NuColor::DarkGray,
        Color::Red => NuColor::Red,
        Color::LightRed => NuColor::LightRed,
        Color::Green => NuColor::Green,
        Color::LightGreen => NuColor::LightGreen,
        Color::Yellow => NuColor::Yellow,
        Color::LightYellow => NuColor::LightYellow,
        Color::Blue => NuColor::Blue,
        Color::LightBlue => NuColor::LightBlue,
        Color::Purple => NuColor::Purple,
        Color::LightPurple => NuColor::LightPurple,
        Color::Magenta => NuColor::Magenta,
        Color::LightMagenta => NuColor::LightMagenta,
        Color::Cyan => NuColor::Cyan,
        Color::LightCyan => NuColor::LightCyan,
        Color::White => NuColor::White,
        Color::LightGray => NuColor::LightGray,
        Color::Default => NuColor::Default,
    }
}

/// The terminal colour that stands for an optional colour.
pub open spec fn nu_color_of(color: Option<Color>) -> Option<NuColor> {
    match color {
        Some(color) => Some(nu_color(color)),
        None => None,
    }
}

/// The terminal style with nothing set.
pub open spec fn plain_style() -> NuStyle {
    NuStyle {
        foreground: None,
        background: None,
        is_bold: false,
        is_dimmed: false,
        is_italic: false,
        is_underline: false,
        is_blink: false,
        is_reverse: false,
        is_hidden: false,
        is_strikethrough: false,
        prefix_with_reset: false,
    }
}

/// The terminal style that stands for `style`: its colours and its four
/// attributes, and nothing else set.
pub open spec fn nu_style(style: Style) -> NuStyle {
    NuStyle {
        foreground: nu_color_of(style.fg),
        background: nu_color_of(style.bg),
        is_bold: style.bold,
        is_dimmed: style.faint,
        is_italic: style.italic,
        is_underline: style.underline,
        ..plain_style()
    }
}

/// `Style::new` of `nu_ansi_term` returns the style that has nothing set.
pub assume_specification[ NuStyle::new ]() -> (made: NuStyle)
    ensures
        made == plain_style(),
;

/// `Style::fg` of `nu_ansi_term` sets the foreground colour and keeps the rest.
pub assume_specification[ NuStyle::fg ](this: &NuStyle, foreground: NuColor) -> (made: NuStyle)
    ensures
        made == (NuStyle { foreground: Some(foreground), ..*this }),
;

/// `Style::on` of `nu_ansi_term` sets the background colour and keeps the rest.
pub assume_specification[ NuStyle::on ](this: &NuStyle, background: NuColor) -> (made: NuStyle)
    ensures
        made == (NuStyle { background: Some(background), ..*this }),
;

/// `Style::bold` of `nu_ansi_term` sets the bold attribute and keeps the rest.
pub assume_specification[ NuStyle::bold ](this: &NuStyle) -> (made: NuStyle)
    ensures
        made == (NuStyle { is_bold: true, ..*this }),
;

/// `Style::dimmed` of `nu_ansi_term` sets the dimmed attribute and keeps the rest.
pub assume_specification[ NuStyle::dimmed ](this: &NuStyle) -> (made: NuStyle)
    ensures
        made == (NuStyle { is_dimmed: true, ..*this }),
;

/// `Style::italic` of `nu_ansi_term` sets the italic attribute and keeps the rest.
pub assume_specification[ NuStyle::italic ](this: &NuStyle) -> (made: NuStyle)
    ensures
        made == (NuStyle { is_italic: true, ..*this }),
;

/// `Style::underline` of `nu_ansi_term` sets the underline attribute and keeps
/// the rest.
pub assume_specification[ NuStyle::underline ](this: &NuStyle) -> (made: NuStyle)
    ensures
        made == (NuStyle { is_underline: true, ..*this }),
;

impl From<&Color> for NuColor {
    fn from(color: &Color) -> (made: NuColor) {
        match color {
            Color::Black => NuColor::Black,
            Color::DarkGray => NuColor::DarkGray,
            Color::Red => NuColor::Red,
            Color::LightRed => NuColor::LightRed,
            Color::Green => NuColor::Green,
            Color::LightGreen => NuColor::LightGreen,
            Color::Yellow => NuColor::Yellow,
            Color::LightYellow => NuColor::LightYellow,
            Color::Blue => NuColor::Blue,
            Color::LightBlue => NuColor::LightBlue,
            Color::Purple => NuColor::Purple,
            Color::LightPurple => NuColor::LightPurple,
            Color::Magenta => NuColor::Magenta,
            Color::LightMagenta => NuColor::LightMagenta,
            Color::Cyan => NuColor::Cyan,
            Color::LightCyan => NuColor::LightCyan,
            Color::White => NuColor::White,
            Color::LightGray => NuColor::LightGray,
            Color::Default => NuColor::Default,
        }
    }
}

impl FromSpecImpl<&Color> for NuColor {
    open spec fn obeys_from_spec() -> bool {
        true
    }

    open spec fn from_spec(color: &Color) -> NuColor {
        nu_color(*color)
    }
}

impl From<Style> for NuStyle {
    fn from(style: Style) -> (made: NuStyle) {
        let mut nu_style = NuStyle::new();

        if let Some(fg) = &style.fg {
            nu_style = nu_style.fg(NuColor::from(fg));
        }
        if let Some(bg) = &style.bg {
            nu_style = nu_style.on(NuColor::from(bg));
        }
        if style.bold {
            nu_style = nu_style.bold();
        }
        if style.faint {
            nu_style = nu_style.dimmed();
        }
        if style.italic {
            nu_style = nu_style.italic();
        }
        if style.underline {
            nu_style = nu_style.underline();
        }

        nu_style
    }
}

impl FromSpecImpl<Style> for NuStyle {
    open spec fn obeys_from_spec() -> bool {
        true
    }

    open spec fn from_spec(style: Style) -> NuStyle {
        nu_style(style)
    }
}

/// What `nu_ansi_term` writes in front of a text that it paints in `style`:
/// the escape sequence that switches the style on.
pub uninterp spec fn ansi_prefix(style: NuStyle) -> Seq<char>;

/// What `nu_ansi_term` writes behind a text that it paints in `style`: the
/// reset marker, unless the style has nothing set.
pub open spec fn ansi_suffix(style: NuStyle) -> Seq<char> {
    if style == plain_style() {
        seq![]
    } else {
        reset_marker()
    }
}

/// A text as `nu_ansi_term` paints it in `style`.
pub open spec fn painted(style: NuStyle, text: Seq<char>) -> Seq<char> {
    ansi_prefix(style) + text + ansi_suffix(style)
}

/// Calls `Style::paint` of `nu_ansi_term` and formats what it returns. The
/// result is the text between the style's prefix and its suffix; a style with
/// nothing set leaves the text as it is.
#[verifier::external_body]
pub(crate) fn paint(style: &NuStyle, text: &str) -> (output: String)
    ensures
        output@ == ansi_prefix(*style) + text@ + ansi_suffix(*style),
        *style == plain_style() ==> output@ == text@,
{
    format!("{}", style.paint(text))
}

/// The style with nothing set.
pub open spec fn unstyled() -> Style {
    Style { fg: None, bg: None, bold: false, faint: false, italic: false, underline: false }
}

/// The style that has `color` as its foreground and nothing else set.
pub open spec fn colored(color: Color) -> Style {
    Style { fg: Some(color), ..unstyled() }
}

/// A style with the given foreground, faint or italic or neither, and nothing
/// else set.
fn preset(fg: Option<Color>, faint: bool, italic: bool) -> (style: Style)
    ensures
        style == (Style { fg, faint, italic, ..unstyled() }),
{
    Style { fg, bg: None, bold: false, faint, italic, underline: false }
}

pub fn red() -> (style: Style)
    ensures
        style == colored(Color::Red),
{
    preset(Some(Color::Red), false, false)
}

pub fn green() -> (style: Style)
    ensures
        style == colored(Color::Green),
{
    preset(Some(Color::Green), false, false)
}

pub fn yellow() -> (style: Style)
    ensures
        style == colored(Color::Yellow),
{
    preset(Some(Color::Yellow), false, false)
}

pub fn blue() -> (style: Style)
    ensures
        style == colored(Color::Blue),
{
    preset(Some(Color::Blue), false, false)
}

pub fn magenta() -> (style: Style)
    ensures
        style == colored(Color::Magenta),
{
    preset(Some(Color::Magenta), false, false)
}

pub fn cyan() -> (style: Style)
    ensures
        style == colored(Color::Cyan),
{
    preset(Some(Color::Cyan), false, false)
}

pub fn white() -> (style: Style)
    ensures
        style == colored(Color::White),
{
    preset(Some(Color::White), false, false)
}

pub fn faint() -> (style: Style)
    ensures
        style == (Style { faint: true, ..unstyled() }),
{
    preset(None, true, false)
}

pub fn red_and_faint() -> (style: Style)
    ensures
        style == (Style { faint: true, ..colored(Color::Red) }),
{
    preset(Some(Color::Red), true, false)
}

pub fn green_and_faint() -> (style: Style)
    ensures
        style == (Style { faint: true, ..colored(Color::Green) }),
{
    preset(Some(Color::Green), true, false)
}

pub fn blue_and_faint() -> (style: Style)
    ensures
        style == (Style { faint: true, ..colored(Color::Blue) }),
{
    preset(Some(Color::Blue), true, false)
}

pub fn blue_and_italic() -> (style: Style)
    ensures
        style == (Style { italic: true, ..colored(Color::Blue) }),
{
    preset(Some(Color::Blue), false, true)
}

pub fn magenta_and_italic() -> (style: Style)
    ensures
        style == (Style { italic: true, ..colored(Color::Magenta) }),
{
    preset(Some(Color::Magenta), false, true)
}

} // verus!
