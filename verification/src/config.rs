//! The styles of each kind of token, and their defaults.

use vstd::prelude::*;
use crate::style::{
    blue, blue_and_faint, blue_and_italic, colored, cyan, faint, green, green_and_faint, magenta,
    magenta_and_italic, red, red_and_faint, unstyled, white, yellow, Color, Style,
};

verus! {

pub struct NumberConfig {
    pub number: Style,
}

impl Default for NumberConfig {
    fn default() -> (config: Self)
        ensures
            config == (NumberConfig { number: colored(Color::Cyan) }),
    {
        NumberConfig { number: cyan() }
    }
}

pub struct UuidConfig {
    pub number: Style,
    pub letter: Style,
    pub dash: Style,
}

impl Default for UuidConfig {
    fn default() -> (config: Self)
        ensures
            config == (UuidConfig {
                number: Style { italic: true, ..colored(Color::Blue) },
                letter: Style { italic: true, ..colored(Color::Magenta) },
                dash: colored(Color::Red),
            }),
    {
        UuidConfig { number: blue_and_italic(), letter: magenta_and_italic(), dash: red() }
    }
}

pub struct KeyValueConfig {
    pub key: Style,
    pub separator: Style,
}

impl Default for KeyValueConfig {
    fn default() -> (config: Self)
        ensures
            config == (KeyValueConfig {
                key: Style { faint: true, ..unstyled() },
                separator: colored(Color::White),
            }),
    {
        KeyValueConfig { key: faint(), separator: white() }
    }
}

pub struct TimeConfig {
    pub time: Style,
    pub zone: Style,
    pub separator: Style,
}

impl Default for TimeConfig {
    fn default() -> (config: Self)
        ensures
            config == (TimeConfig {
                time: colored(Color::Blue),
                zone: colored(Color::Red),
                separator: Style { faint: true, ..unstyled() },
            }),
    {
        TimeConfig { time: blue(), zone: red(), separator: faint() }
    }
}

pub struct IpV4Config {
    pub number: Style,
    pub separator: Style,
}

impl Default for IpV4Config {
    fn default() -> (config: Self)
        ensures
            config == (IpV4Config {
                number: Style { italic: true, ..colored(Color::Blue) },
                separator: colored(Color::Red),
            }),
    {
        IpV4Config { number: blue_and_italic(), separator: red() }
    }
}

pub struct IpV6Config {
    pub number: Style,
    pub letter: Style,
    pub separator: Style,
}

impl Default for IpV6Config {
    fn default() -> (config: Self)
        ensures
            config == (IpV6Config {
                number: Style { italic: true, ..colored(Color::Blue) },
                letter: Style { italic: true, ..colored(Color::Magenta) },
                separator: colored(Color::Red),
            }),
    {
        IpV6Config { number: blue_and_italic(), letter: magenta_and_italic(), separator: red() }
    }
}

pub struct UrlConfig {
    pub http: Style,
    pub https: Style,
    pub host: Style,
    pub path: Style,
    pub query_params_key: Style,
    pub query_params_value: Style,
    pub symbols: Style,
}

impl Default for UrlConfig {
    fn default() -> (config: Self)
        ensures
            config == (UrlConfig {
                http: Style { faint: true, ..colored(Color::Red) },
                https: Style { faint: true, ..colored(Color::Green) },
                host: Style { faint: true, ..colored(Color::Blue) },
                path: colored(Color::Blue),
                query_params_key: colored(Color::Magenta),
                query_params_value: colored(Color::Cyan),
                symbols: colored(Color::Red),
            }),
    {
        UrlConfig {
            http: red_and_faint(),
            https: green_and_faint(),
            host: blue_and_faint(),
            path: blue(),
            query_params_key: magenta(),
            query_params_value: cyan(),
            symbols: red(),
        }
    }
}

pub struct UnixPathConfig {
    pub segment: Style,
    pub separator: Style,
}

impl Default for UnixPathConfig {
    fn default() -> (config: Self)
        ensures
            config == (UnixPathConfig {
                segment: colored(Color::Green),
                separator: colored(Color::Yellow),
            }),
    {
        UnixPathConfig { segment: green(), separator: yellow() }
    }
}

pub struct UnixProcessConfig {
    pub name: Style,
    pub id: Style,
    pub bracket: Style,
}

impl Default for UnixProcessConfig {
    fn default() -> (config: Self)
        ensures
            config == (UnixProcessConfig {
                name: colored(Color::Green),
                id: colored(Color::Yellow),
                bracket: colored(Color::Red),
            }),
    {
        UnixProcessConfig { name: green(), id: yellow(), bracket: red() }
    }
}

pub struct QuoteConfig {
    pub quotes_token: char,
    pub color: Style,
}

impl Default for QuoteConfig {
    fn default() -> (config: Self)
        ensures
            config == (QuoteConfig { quotes_token: '"', color: colored(Color::Yellow) }),
    {
        QuoteConfig { quotes_token: '"', color: yellow() }
    }
}

#[derive(PartialEq, Eq, Ord, PartialOrd, Debug)]
pub struct KeywordConfig {
    pub words: Vec<String>,
    pub style: Style,
}

} // verus!
