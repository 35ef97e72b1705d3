use vstd::prelude::*;
use vstd::string::StringExecFns;

verus! {

/// One square of a grid map.
#[derive(Clone, Copy, Debug, PartialEq, Eq, Structural)]
pub enum Tile {
    Open,
    Blocked,
    Start,
    Goal,
    Path,
}

/// Paint colours for terminal rendering.
#[derive(Clone, Copy, Debug, PartialEq, Eq, Structural)]
pub enum Paint {
    Red,
    Green,
    Blue,
}

/// The tile a map character denotes.
pub open spec fn spec_tile_from(c: char) -> Tile {
    if c == '#' {
        Tile::Blocked
    } else if c == 's' {
        Tile::Start
    } else if c == 'g' {
        Tile::Goal
    } else {
        Tile::Open
    }
}

/// The character a tile prints as.
pub open spec fn spec_tile_char(t: Tile) -> char {
    match t {
        Tile::Open => ' ',
        Tile::Blocked => '#',
        Tile::Start => 's',
        Tile::Goal => 'g',
        Tile::Path => '\u{2022}',
    }
}

/// The ANSI foreground-colour code of a paint colour.
pub open spec fn paint_code(p: Paint) -> Seq<char> {
    match p {
        Paint::Red => seq!['3', '1'],
        Paint::Green => seq!['3', '2'],
        Paint::Blue => seq!['3', '4'],
    }
}

/// `s` wrapped in the ANSI escape prefix for `code` and the reset suffix.
pub open spec fn ansi_wrapped(code: Seq<char>, s: Seq<char>) -> Seq<char> {
    seq!['\u{1b}', '['] + code + seq!['m'] + s + seq!['\u{1b}', '[', '0', 'm']
}

/// Relies on ansi_term::Colour::paint and the display form of the ANSI string
/// it returns: the text comes back wrapped in the colour's escape prefix and
/// the reset suffix.
#[verifier::external_body]
fn paint(colour: Paint, text: &str) -> (r: String)
    ensures
        r@ == ansi_wrapped(paint_code(colour), text@),
{
    let c = match colour {
        Paint::Red => ansi_term::Colour::Red,
        Paint::Green => ansi_term::Colour::Green,
        Paint::Blue => ansi_term::Colour::Blue,
    };
    c.paint(text).to_string()
}

/// The coloured rendering of a tile: open squares print as a plain blank,
/// every other tile as its symbol wrapped in a colour escape.
pub open spec fn spec_tile_color(t: Tile) -> Seq<char> {
    match t {
        Tile::Open => seq![' '],
        Tile::Blocked => ansi_wrapped(paint_code(Paint::Blue), seq!['#']),
        Tile::Start => ansi_wrapped(paint_code(Paint::Red), seq!['s']),
        Tile::Goal => ansi_wrapped(paint_code(Paint::Green), seq!['\u{2713}']),
        Tile::Path => ansi_wrapped(paint_code(Paint::Red), seq!['\u{2022}']),
    }
}

impl Tile {
    pub fn from(c: char) -> (t: Tile)
        ensures
            t == spec_tile_from(c),
    {
        match c {
            '#' => Tile::Blocked,
            's' => Tile::Start,
            'g' => Tile::Goal,
            _ => Tile::Open,
        }
    }

    pub fn to_char(&self) -> (c: char)
        ensures
            c == spec_tile_char(*self),
    {
        match *self {
            Tile::Open => ' ',
            Tile::Blocked => '#',
            Tile::Start => 's',
            Tile::Goal => 'g',
            Tile::Path => '\u{2022}',
        }
    }

    pub fn to_color_string(&self) -> (r: String)
        ensures
            r@ == spec_tile_color(*self),
    {
        match *self {
            Tile::Open => {
                let r = String::from_str(" ");
                proof {
                    reveal_strlit(" ");
                    assert(r@ =~= seq![' ']);
                }
                r
            },
            Tile::Blocked => {
                let r = paint(Paint::Blue, "#");
                proof {
                    reveal_strlit("#");
                    assert("#"@ =~= seq!['#']);
                }
                r
            },
            Tile::Start => {
                let r = paint(Paint::Red, "s");
                proof {
                    reveal_strlit("s");
                    assert("s"@ =~= seq!['s']);
                }
                r
            },
            Tile::Goal => {
                let r = paint(Paint::Green, "\u{2713}");
                proof {
                    reveal_strlit("\u{2713}");
                    assert("\u{2713}"@ =~= seq!['\u{2713}']);
                }
                r
            },
            Tile::Path => {
                let r = paint(Paint::Red, "\u{2022}");
                proof {
                    reveal_strlit("\u{2022}");
                    assert("\u{2022}"@ =~= seq!['\u{2022}']);
                }
                r
            },
        }
    }
}

} // verus!
