//! The colors the interface gives to methods and status codes, and the default palette.
use vstd::prelude::*;

use crate::text::same_text;

verus! {

/// A color slot of the palette.
#[derive(Debug, Clone, Copy, PartialEq, Eq, Structural)]
pub enum Tone {
    Text,
    Subtle,
    Surface0,
    Blue,
    Pink,
    Green,
    Yellow,
    Cyan,
    Red,
}

/// The tone of an HTTP method's name.
pub open spec fn method_tone_of(method: Seq<char>) -> Tone {
    if method == "GET"@ {
        Tone::Green
    } else if method == "POST"@ {
        Tone::Yellow
    } else if method == "PUT"@ || method == "PATCH"@ {
        Tone::Blue
    } else if method == "DELETE"@ {
        Tone::Red
    } else {
        Tone::Pink
    }
}

/// The tone a method name is shown in.
pub fn method_tone(method: &str) -> (r: Tone)
    ensures
        r == method_tone_of(method@),
{
    if same_text(method, "GET") {
        Tone::Green
    } else if same_text(method, "POST") {
        Tone::Yellow
    } else if same_text(method, "PUT") || same_text(method, "PATCH") {
        Tone::Blue
    } else if same_text(method, "DELETE") {
        Tone::Red
    } else {
        Tone::Pink
    }
}

/// The tone of a status code: success green, redirect cyan, client error yellow,
/// anything else red.
pub open spec fn status_tone_of(status: u16) -> Tone {
    if 200 <= status <= 299 {
        Tone::Green
    } else if 300 <= status <= 399 {
        Tone::Cyan
    } else if 400 <= status <= 499 {
        Tone::Yellow
    } else {
        Tone::Red
    }
}

/// The tone a status code is shown in.
pub fn status_tone(status: u16) -> (r: Tone)
    ensures
        r == status_tone_of(status),
{
    if 200 <= status && status <= 299 {
        Tone::Green
    } else if 300 <= status && status <= 399 {
        Tone::Cyan
    } else if 400 <= status && status <= 499 {
        Tone::Yellow
    } else {
        Tone::Red
    }
}

/// The name of the default theme.
pub fn theme_name() -> (r: &'static str)
    ensures
        r@ == "catppuccin-mocha"@,
{
    "catppuccin-mocha"
}

/// The red, green and blue of each tone in the default dark palette.
pub open spec fn dark_rgb(tone: Tone) -> (u8, u8, u8) {
    match tone {
        Tone::Text => (205, 214, 244),
        Tone::Subtle => (108, 112, 134),
        Tone::Surface0 => (49, 50, 68),
        Tone::Blue => (137, 180, 250),
        Tone::Pink => (245, 194, 231),
        Tone::Green => (166, 227, 161),
        Tone::Yellow => (249, 226, 175),
        Tone::Cyan => (148, 226, 213),
        Tone::Red => (243, 139, 168),
    }
}

/// The color of a tone in the default dark palette.
pub fn default_dark(tone: Tone) -> (r: (u8, u8, u8))
    ensures
        r == dark_rgb(tone),
{
    match tone {
        Tone::Text => (205, 214, 244),
        Tone::Subtle => (108, 112, 134),
        Tone::Surface0 => (49, 50, 68),
        Tone::Blue => (137, 180, 250),
        Tone::Pink => (245, 194, 231),
        Tone::Green => (166, 227, 161),
        Tone::Yellow => (249, 226, 175),
        Tone::Cyan => (148, 226, 213),
        Tone::Red => (243, 139, 168),
    }
}

} // verus!
