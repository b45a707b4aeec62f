use vstd::prelude::*;

verus! {

/// Path flavour: which bytes separate path segments.
#[derive(Clone, Copy, Debug, PartialEq, Eq, Structural)]
pub enum Mode {
    Posix,
    Windows,
}

/// Whether `b` separates path segments under `mode`.
pub open spec fn sep_spec(mode: Mode, b: u8) -> bool {
    match mode {
        Mode::Posix => b == 47u8,
        Mode::Windows => b == 47u8 || b == 92u8,
    }
}

/// `std::path::MAIN_SEPARATOR`: the separator of paths on the platform the library was
/// built for. Nothing is stated of which one it is.
#[verifier::external_body]
fn main_separator() -> char {
    std::path::MAIN_SEPARATOR
}

/// The path flavour of a platform whose main separator is `c`.
pub open spec fn mode_for(c: char) -> Mode {
    if c == '\\' {
        Mode::Windows
    } else {
        Mode::Posix
    }
}

impl Mode {
    /// The path flavour of the platform the library was built for: `Windows` where paths
    /// are separated by a backslash, `Posix` elsewhere. Which platform that is, Verus is
    /// not told: this is `for_separator` of the platform's main separator.
    pub fn auto() -> Mode {
        Mode::for_separator(main_separator())
    }

    /// The path flavour of a platform whose main path separator is `c`: `Windows` for a
    /// backslash, `Posix` for anything else.
    pub fn for_separator(c: char) -> (r: Mode)
        ensures
            r == mode_for(c),
    {
        if c == '\\' {
            Mode::Windows
        } else {
            Mode::Posix
        }
    }

    pub fn is_sep(self, b: u8) -> (r: bool)
        ensures
            r == sep_spec(self, b),
    {
        match self {
            Mode::Posix => b == 47u8,
            Mode::Windows => b == 47u8 || b == 92u8,
        }
    }
}

/// Options that change how a pattern is parsed and matched.
#[derive(Clone, Copy, Debug)]
pub struct MatchOptions {
    pub dot: bool,
    pub nocase: bool,
    pub mode: Mode,
    pub contains: bool,
    pub match_base: bool,
    pub nobrace: bool,
    pub nobracket: bool,
    pub noextglob: bool,
    pub noglobstar: bool,
    pub nonegate: bool,
    pub strict_slashes: bool,
    pub max_brace_depth: u8,
    pub max_length: usize,
}

impl Default for MatchOptions {
    fn default() -> (o: Self)
        ensures
            !o.dot,
            !o.nocase,
            o.mode == Mode::Posix,
            !o.contains,
            !o.match_base,
            !o.nobrace,
            !o.nobracket,
            !o.noextglob,
            !o.noglobstar,
            !o.nonegate,
            !o.strict_slashes,
            o.max_brace_depth == 10,
            o.max_length == 65536,
    {
        MatchOptions {
            dot: false,
            nocase: false,
            mode: Mode::Posix,
            contains: false,
            match_base: false,
            nobrace: false,
            nobracket: false,
            noextglob: false,
            noglobstar: false,
            nonegate: false,
            strict_slashes: false,
            max_brace_depth: 10,
            max_length: 65_536,
        }
    }
}

} // verus!
