//! Map Nushell / ANSI / xterm colors onto RGB triples.

use vstd::prelude::*;

verus! {

/// RGB triple resolved from a Nu style.
#[derive(Debug, Clone, Copy, PartialEq, Eq, Structural)]
pub struct Rgb {
    pub r: u8,
    pub g: u8,
    pub b: u8,
    pub bold: bool,
}

/// A terminal color as Nushell styles name it.
#[derive(Debug, Clone, Copy, PartialEq, Eq, Structural)]
pub enum AnsiColor {
    Black,
    DarkGray,
    Red,
    LightRed,
    Green,
    LightGreen,
    Yellow,
    LightYellow,
    Blue,
    LightBlue,
    Purple,
    LightPurple,
    Magenta,
    LightMagenta,
    Cyan,
    LightCyan,
    White,
    LightGray,
    Fixed(u8),
    Rgb(u8, u8, u8),
    Default,
}

/// What a Nushell style says about the text it paints.
#[derive(Debug, Clone, Copy, PartialEq, Eq, Structural)]
pub struct AnsiStyle {
    pub foreground: Option<AnsiColor>,
    pub is_bold: bool,
}

/// How bright a color looks: by its relative luminance, below 96, above 200, or neither.
#[derive(Debug, Clone, Copy, PartialEq, Eq, Structural)]
pub enum Brightness {
    Dim,
    Middle,
    Bright,
}

/// The sixteen system colors of a terminal.
pub open spec fn system_color(n: u8) -> (u8, u8, u8) {
    if n == 0 {
        (0, 0, 0)
    } else if n == 1 {
        (128, 0, 0)
    } else if n == 2 {
        (0, 128, 0)
    } else if n == 3 {
        (128, 128, 0)
    } else if n == 4 {
        (0, 0, 128)
    } else if n == 5 {
        (128, 0, 128)
    } else if n == 6 {
        (0, 128, 128)
    } else if n == 7 {
        (192, 192, 192)
    } else if n == 8 {
        (128, 128, 128)
    } else if n == 9 {
        (255, 0, 0)
    } else if n == 10 {
        (0, 255, 0)
    } else if n == 11 {
        (255, 255, 0)
    } else if n == 12 {
        (0, 0, 255)
    } else if n == 13 {
        (255, 0, 255)
    } else if n == 14 {
        (0, 255, 255)
    } else {
        (255, 255, 255)
    }
}

/// The intensity of one step of the color cube: nothing, then 95 and 40 more a step.
pub open spec fn cube_level(step: int) -> u8 {
    if step == 0 {
        0
    } else {
        (55 + 40 * step) as u8
    }
}

/// The xterm palette: system colors, a cube of six steps a channel, and a gray ramp.
pub open spec fn palette(n: u8) -> (u8, u8, u8) {
    if n < 16 {
        system_color(n)
    } else if n < 232 {
        let k = n - 16;
        (cube_level(k / 36), cube_level((k / 6) % 6), cube_level(k % 6))
    } else {
        let v = (8 + (n - 232) * 10) as u8;
        (v, v, v)
    }
}

/// The triple of a palette entry, bold or not.
pub open spec fn palette_rgb(n: u8, bold: bool) -> Rgb {
    Rgb { r: palette(n).0, g: palette(n).1, b: palette(n).2, bold }
}

/// The workbench's own rendering of a named terminal color; `Default` has none.
pub open spec fn named_rgb(color: AnsiColor) -> Option<(u8, u8, u8)> {
    match color {
        AnsiColor::Black => Some((80, 80, 80)),
        AnsiColor::DarkGray => Some((154, 160, 168)),
        AnsiColor::Red => Some((232, 88, 88)),
        AnsiColor::LightRed => Some((255, 120, 120)),
        AnsiColor::Green => Some((88, 196, 120)),
        AnsiColor::LightGreen => Some((120, 220, 150)),
        AnsiColor::Yellow => Some((230, 190, 80)),
        AnsiColor::LightYellow => Some((245, 220, 120)),
        AnsiColor::Blue => Some((88, 156, 232)),
        AnsiColor::LightBlue => Some((130, 190, 255)),
        AnsiColor::Purple => Some((188, 140, 220)),
        AnsiColor::Magenta => Some((188, 140, 220)),
        AnsiColor::LightPurple => Some((210, 170, 240)),
        AnsiColor::LightMagenta => Some((210, 170, 240)),
        AnsiColor::Cyan => Some((80, 200, 210)),
        AnsiColor::LightCyan => Some((130, 230, 235)),
        AnsiColor::White => Some((232, 234, 237)),
        AnsiColor::LightGray => Some((196, 196, 196)),
        AnsiColor::Fixed(n) => Some(palette(n)),
        AnsiColor::Rgb(r, g, b) => Some((r, g, b)),
        AnsiColor::Default => None,
    }
}

/// The color that a style gives to text, bold where the style is.
pub open spec fn style_rgb(style: AnsiStyle) -> Option<Rgb> {
    match style.foreground {
        Some(color) => match named_rgb(color) {
            Some((r, g, b)) => Some(Rgb { r, g, b, bold: style.is_bold }),
            None => None,
        },
        None => None,
    }
}

/// A color as it is drawn on a background: a dim one on a dark background gives way to its
/// lifted form, a bright one on a light background is dimmed.
pub open spec fn contrasted(
    color: Rgb,
    dark_bg: bool,
    brightness: Brightness,
    lifted: (u8, u8, u8),
) -> Rgb {
    if dark_bg && brightness is Dim {
        Rgb { r: lifted.0, g: lifted.1, b: lifted.2, bold: color.bold }
    } else if !dark_bg && brightness is Bright {
        Rgb { r: dimmed(color.r), g: dimmed(color.g), b: dimmed(color.b), bold: color.bold }
    } else {
        color
    }
}

/// A channel at six tenths.
pub open spec fn dimmed(channel: u8) -> u8 {
    (channel * 6 / 10) as u8
}

/// Dimming makes a channel darker and keeps the order of two channels, apart where they are
/// two or more apart.
pub proof fn law_dimming_keeps_the_order_of_channels(low: u8, high: u8)
    requires
        low <= high,
    ensures
        dimmed(low) <= dimmed(high),
        low + 2 <= high ==> dimmed(low) < dimmed(high),
        high > 0 ==> dimmed(high) < high,
{
}

fn dim(channel: u8) -> (c: u8)
    ensures
        c == dimmed(channel),
{
    (channel as u16 * 6 / 10) as u8
}

fn system(n: u8) -> (c: (u8, u8, u8))
    ensures
        c == system_color(n),
{
    match n {
        0 => (0, 0, 0),
        1 => (128, 0, 0),
        2 => (0, 128, 0),
        3 => (128, 128, 0),
        4 => (0, 0, 128),
        5 => (128, 0, 128),
        6 => (0, 128, 128),
        7 => (192, 192, 192),
        8 => (128, 128, 128),
        9 => (255, 0, 0),
        10 => (0, 255, 0),
        11 => (255, 255, 0),
        12 => (0, 0, 255),
        13 => (255, 0, 255),
        14 => (0, 255, 255),
        _ => (255, 255, 255),
    }
}

fn level(step: u8) -> (c: u8)
    requires
        step < 6,
    ensures
        c == cube_level(step as int),
{
    if step == 0 {
        0
    } else {
        55 + 40 * step
    }
}

/// The RGB triple of an xterm palette index.
pub fn xterm256(n: u8) -> (c: (u8, u8, u8))
    ensures
        c == palette(n),
{
    if n < 16 {
        system(n)
    } else if n < 232 {
        let k: u8 = n - 16;
        (level(k / 36), level((k / 6) % 6), level(k % 6))
    } else {
        let v: u8 = 8 + (n - 232) * 10;
        (v, v, v)
    }
}

impl Rgb {
    /// The three channels as one number, red first.
    pub fn packed(self) -> (n: u32)
        ensures
            n == self.r * 0x1_0000 + self.g * 0x100 + self.b,
    {
        self.r as u32 * 0x1_0000 + self.g as u32 * 0x100 + self.b as u32
    }

    /// A color that is not bold.
    pub fn new(r: u8, g: u8, b: u8) -> (c: Self)
        ensures
            c == (Rgb { r, g, b, bold: false }),
    {
        Rgb { r, g, b, bold: false }
    }

    /// The same color, bold.
    pub fn bold(self) -> (c: Self)
        ensures
            c == (Rgb { bold: true, ..self }),
    {
        Rgb { r: self.r, g: self.g, b: self.b, bold: true }
    }

    /// One of the basic terminal colors; the bright half is bold.
    pub fn from_ansi_index(index: u8, bright: bool) -> (c: Self)
        requires
            bright ==> index <= 247,
        ensures
            c == palette_rgb(
                if bright {
                    (index + 8) as u8
                } else {
                    index
                },
                bright,
            ),
    {
        let n: u8 = if bright {
            index + 8
        } else {
            index
        };
        let (r, g, b) = xterm256(n);
        Rgb { r, g, b, bold: bright }
    }

    /// A color of the xterm palette.
    pub fn from_xterm(index: u8) -> (c: Self)
        ensures
            c == palette_rgb(index, false),
    {
        let (r, g, b) = xterm256(index);
        Rgb { r, g, b, bold: false }
    }

    /// The workbench's rendering of a named terminal color.
    pub fn from_ansi(color: AnsiColor, bold: bool) -> (c: Option<Self>)
        ensures
            c == (match named_rgb(color) {
                Some((r, g, b)) => Some(Rgb { r, g, b, bold }),
                None => None,
            }),
    {
        let (r, g, b): (u8, u8, u8) = match color {
            AnsiColor::Black => (80, 80, 80),
            AnsiColor::DarkGray => (154, 160, 168),
            AnsiColor::Red => (232, 88, 88),
            AnsiColor::LightRed => (255, 120, 120),
            AnsiColor::Green => (88, 196, 120),
            AnsiColor::LightGreen => (120, 220, 150),
            AnsiColor::Yellow => (230, 190, 80),
            AnsiColor::LightYellow => (245, 220, 120),
            AnsiColor::Blue => (88, 156, 232),
            AnsiColor::LightBlue => (130, 190, 255),
            AnsiColor::Purple | AnsiColor::Magenta => (188, 140, 220),
            AnsiColor::LightPurple | AnsiColor::LightMagenta => (210, 170, 240),
            AnsiColor::Cyan => (80, 200, 210),
            AnsiColor::LightCyan => (130, 230, 235),
            AnsiColor::White => (232, 234, 237),
            AnsiColor::LightGray => (196, 196, 196),
            AnsiColor::Fixed(n) => xterm256(n),
            AnsiColor::Rgb(r, g, b) => (r, g, b),
            AnsiColor::Default => {
                return None;
            },
        };
        Some(Rgb { r, g, b, bold })
    }

    /// The color that a style gives to text.
    pub fn from_style(style: AnsiStyle) -> (c: Option<Self>)
        ensures
            c == style_rgb(style),
    {
        match style.foreground {
            Some(color) => Rgb::from_ansi(color, style.is_bold),
            None => None,
        }
    }

    /// Keep the hue, but guarantee it is readable on the current chrome: a dim color on a
    /// dark background gives way to `lifted`, the same color drawn toward a light gray, and
    /// a bright color on a light background is dimmed.
    pub fn contrast_on(self, dark_bg: bool, brightness: Brightness, lifted: (u8, u8, u8)) -> (c:
        Self)
        ensures
            c == contrasted(self, dark_bg, brightness, lifted),
    {
        match brightness {
            Brightness::Dim if dark_bg => Rgb {
                r: lifted.0,
                g: lifted.1,
                b: lifted.2,
                bold: self.bold,
            },
            Brightness::Bright if !dark_bg => Rgb {
                r: dim(self.r),
                g: dim(self.g),
                b: dim(self.b),
                bold: self.bold,
            },
            _ => self,
        }
    }
}

// ---------------------------------------------------------------------------------------
// Laws

/// Contrast never changes the weight. On a dark background a dim color becomes its lifted
/// form and every other stays; on a light one a bright color gets no channel brighter, none
/// of its channels changes places with another, and every other color stays.
pub proof fn law_contrast(color: Rgb, brightness: Brightness, lifted: (u8, u8, u8))
    ensures
        contrasted(color, true, brightness, lifted).bold == color.bold,
        contrasted(color, false, brightness, lifted).bold == color.bold,
        contrasted(color, true, Brightness::Dim, lifted) == (Rgb {
            r: lifted.0,
            g: lifted.1,
            b: lifted.2,
            bold: color.bold,
        }),
        !(brightness is Dim) ==> contrasted(color, true, brightness, lifted) == color,
        !(brightness is Bright) ==> contrasted(color, false, brightness, lifted) == color,
        ({
            let dark = contrasted(color, false, Brightness::Bright, lifted);
            &&& 10 * dark.r <= 6 * color.r < 10 * dark.r + 10
            &&& 10 * dark.g <= 6 * color.g < 10 * dark.g + 10
            &&& 10 * dark.b <= 6 * color.b < 10 * dark.b + 10
        }),
{
}

/// The first sixteen colors of the palette count in bits: one for red, two for green, four
/// for blue, at 128 and from the ninth on at 255. The eighth and the ninth are grays.
pub proof fn law_system_colors_count_in_bits(n: u8)
    requires
        n < 7,
    ensures
        palette(n) == (
            if n % 2 == 1 {
                128u8
            } else {
                0u8
            },
            if n / 2 % 2 == 1 {
                128u8
            } else {
                0u8
            },
            if n / 4 == 1 {
                128u8
            } else {
                0u8
            },
        ),
        n > 0 ==> palette((n + 8) as u8) == (
            if n % 2 == 1 {
                255u8
            } else {
                0u8
            },
            if n / 2 % 2 == 1 {
                255u8
            } else {
                0u8
            },
            if n / 4 == 1 {
                255u8
            } else {
                0u8
            },
        ),
        palette(7) == (192u8, 192u8, 192u8),
        palette(8) == (128u8, 128u8, 128u8),
        palette(15) == (255u8, 255u8, 255u8),
{
}

/// From 16 on the palette is a cube of six steps in each channel, red slowest and blue
/// fastest, and from 232 on a ramp of grays.
pub proof fn law_palette_is_a_cube_and_a_ramp(r: u8, g: u8, b: u8, step: u8)
    requires
        r < 6,
        g < 6,
        b < 6,
        step < 24,
    ensures
        ({
            let (x, y, z) = palette((16 + 36 * r + 6 * g + b) as u8);
            &&& x == (if r == 0 {
                0
            } else {
                55 + 40 * r
            })
            &&& y == (if g == 0 {
                0
            } else {
                55 + 40 * g
            })
            &&& z == (if b == 0 {
                0
            } else {
                55 + 40 * b
            })
        }),
        ({
            let (x, y, z) = palette((232 + step) as u8);
            x == 8 + 10 * step && y == x && z == x
        }),
{
    let n = 16 + 36 * r + 6 * g + b;
    assert((n - 16) / 36 == r as int && ((n - 16) / 6) % 6 == g as int && (n - 16) % 6 == b as int)
        by (nonlinear_arith)
        requires
            n == 16 + 36 * r + 6 * g + b,
            0 <= r < 6,
            0 <= g < 6,
            0 <= b < 6,
    ;
}

/// The named colors are what their names say: the channels that make up a hue outshine the
/// others, the light form of each is lighter in every channel, and the grays rise from
/// black to white.
pub proof fn law_named_colors_have_their_hue()
    ensures
        ({
            let red = named_rgb(AnsiColor::Red)->0;
            let green = named_rgb(AnsiColor::Green)->0;
            let yellow = named_rgb(AnsiColor::Yellow)->0;
            let blue = named_rgb(AnsiColor::Blue)->0;
            let purple = named_rgb(AnsiColor::Purple)->0;
            let cyan = named_rgb(AnsiColor::Cyan)->0;
            &&& red.0 > red.1 && red.0 > red.2
            &&& green.1 > green.0 && green.1 > green.2
            &&& yellow.0 > yellow.2 && yellow.1 > yellow.2
            &&& blue.2 > blue.0 && blue.2 > blue.1
            &&& purple.0 > purple.1 && purple.2 > purple.1
            &&& cyan.1 > cyan.0 && cyan.2 > cyan.0
            &&& named_rgb(AnsiColor::Magenta) == named_rgb(AnsiColor::Purple)
            &&& named_rgb(AnsiColor::LightMagenta) == named_rgb(AnsiColor::LightPurple)
            &&& lighter(named_rgb(AnsiColor::LightRed)->0, red)
            &&& lighter(named_rgb(AnsiColor::LightGreen)->0, green)
            &&& lighter(named_rgb(AnsiColor::LightYellow)->0, yellow)
            &&& lighter(named_rgb(AnsiColor::LightBlue)->0, blue)
            &&& lighter(named_rgb(AnsiColor::LightPurple)->0, purple)
            &&& lighter(named_rgb(AnsiColor::LightCyan)->0, cyan)
            &&& lighter(named_rgb(AnsiColor::DarkGray)->0, named_rgb(AnsiColor::Black)->0)
            &&& lighter(named_rgb(AnsiColor::LightGray)->0, named_rgb(AnsiColor::DarkGray)->0)
            &&& lighter(named_rgb(AnsiColor::White)->0, named_rgb(AnsiColor::LightGray)->0)
        }),
{
}

/// Whether a color is lighter than another in every channel.
pub open spec fn lighter(a: (u8, u8, u8), b: (u8, u8, u8)) -> bool {
    a.0 > b.0 && a.1 > b.1 && a.2 > b.2
}

/// A style without a foreground, or with the default one, gives no color. A numbered or
/// direct foreground gives that color, and the weight is that of the style.
pub proof fn law_styles_give_their_foreground(n: u8, r: u8, g: u8, b: u8, bold: bool)
    ensures
        style_rgb(AnsiStyle { foreground: None, is_bold: bold }) is None,
        style_rgb(AnsiStyle { foreground: Some(AnsiColor::Default), is_bold: bold }) is None,
        style_rgb(AnsiStyle { foreground: Some(AnsiColor::Fixed(n)), is_bold: bold }) == Some(
            Rgb { r: palette(n).0, g: palette(n).1, b: palette(n).2, bold },
        ),
        style_rgb(AnsiStyle { foreground: Some(AnsiColor::Rgb(r, g, b)), is_bold: bold }) == Some(
            Rgb { r, g, b, bold },
        ),
        style_rgb(AnsiStyle { foreground: Some(AnsiColor::Red), is_bold: bold }) is Some,
        style_rgb(AnsiStyle { foreground: Some(AnsiColor::Red), is_bold: bold })->0.bold == bold,
{
}

/// The exact triples of the named colors.
pub proof fn law_named_colors_are_fixed()
    ensures
        named_rgb(AnsiColor::Black) == Some((80u8, 80u8, 80u8)),
        named_rgb(AnsiColor::DarkGray) == Some((154u8, 160u8, 168u8)),
        named_rgb(AnsiColor::Red) == Some((232u8, 88u8, 88u8)),
        named_rgb(AnsiColor::LightRed) == Some((255u8, 120u8, 120u8)),
        named_rgb(AnsiColor::Green) == Some((88u8, 196u8, 120u8)),
        named_rgb(AnsiColor::LightGreen) == Some((120u8, 220u8, 150u8)),
        named_rgb(AnsiColor::Yellow) == Some((230u8, 190u8, 80u8)),
        named_rgb(AnsiColor::LightYellow) == Some((245u8, 220u8, 120u8)),
        named_rgb(AnsiColor::Blue) == Some((88u8, 156u8, 232u8)),
        named_rgb(AnsiColor::LightBlue) == Some((130u8, 190u8, 255u8)),
        named_rgb(AnsiColor::Purple) == Some((188u8, 140u8, 220u8)),
        named_rgb(AnsiColor::LightPurple) == Some((210u8, 170u8, 240u8)),
        named_rgb(AnsiColor::Cyan) == Some((80u8, 200u8, 210u8)),
        named_rgb(AnsiColor::LightCyan) == Some((130u8, 230u8, 235u8)),
        named_rgb(AnsiColor::White) == Some((232u8, 234u8, 237u8)),
        named_rgb(AnsiColor::LightGray) == Some((196u8, 196u8, 196u8)),
        named_rgb(AnsiColor::Default) is None,
{
}

} // verus!
