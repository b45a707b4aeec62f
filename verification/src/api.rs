use vstd::prelude::*;
use vstd::string::StringSliceAdditionalSpecFns;
use vstd::utf8::encode_utf8;

use crate::compile::{compiled_ok, compiles, CompiledGlob};
use crate::matcher::matches_spec;
use crate::options::{MatchOptions, Mode};
use crate::parse::ParseError;
use crate::set::{selected_indices, selects, GlobSetMatcher};

verus! {

/// Options as a caller gives them: each one either set or left at its default.
#[derive(Clone, Copy, Debug)]
pub struct JsMatchOptions {
    pub dot: Option<bool>,
    pub nocase: Option<bool>,
    pub windows: Option<bool>,
    pub contains: Option<bool>,
    pub match_base: Option<bool>,
    pub nobrace: Option<bool>,
    pub nobracket: Option<bool>,
    pub noextglob: Option<bool>,
    pub noglobstar: Option<bool>,
    pub nonegate: Option<bool>,
    pub strict_slashes: Option<bool>,
    pub max_brace_depth: Option<u32>,
    pub max_length: Option<u32>,
}

impl Default for JsMatchOptions {
    fn default() -> (r: Self)
        ensures
            r.dot is None,
            r.nocase is None,
            r.windows is None,
            r.contains is None,
            r.match_base is None,
            r.nobrace is None,
            r.nobracket is None,
            r.noextglob is None,
            r.noglobstar is None,
            r.nonegate is None,
            r.strict_slashes is None,
            r.max_brace_depth is None,
            r.max_length is None,
    {
        JsMatchOptions {
            dot: None,
            nocase: None,
            windows: None,
            contains: None,
            match_base: None,
            nobrace: None,
            nobracket: None,
            noextglob: None,
            noglobstar: None,
            nonegate: None,
            strict_slashes: None,
            max_brace_depth: None,
            max_length: None,
        }
    }
}

pub open spec fn flag_or(v: Option<bool>, d: bool) -> bool {
    match v {
        Some(x) => x,
        None => d,
    }
}

/// The options that `j` asks for, the defaults filling in what it leaves out.
pub open spec fn native_options(j: JsMatchOptions) -> MatchOptions {
    MatchOptions {
        dot: flag_or(j.dot, false),
        nocase: flag_or(j.nocase, false),
        mode: match j.windows {
            Some(true) => Mode::Windows,
            _ => Mode::Posix,
        },
        contains: flag_or(j.contains, false),
        match_base: flag_or(j.match_base, false),
        nobrace: flag_or(j.nobrace, false),
        nobracket: flag_or(j.nobracket, false),
        noextglob: flag_or(j.noextglob, false),
        noglobstar: flag_or(j.noglobstar, false),
        nonegate: flag_or(j.nonegate, false),
        strict_slashes: flag_or(j.strict_slashes, false),
        max_brace_depth: match j.max_brace_depth {
            Some(v) => if v < 255 {
                v as u8
            } else {
                255u8
            },
            None => 10u8,
        },
        max_length: match j.max_length {
            Some(v) => v as usize,
            None => 65536usize,
        },
    }
}

/// The options of an optional `j`.
pub open spec fn options_of(j: Option<JsMatchOptions>) -> MatchOptions {
    match j {
        Some(x) => native_options(x),
        None => native_options(
            JsMatchOptions {
                dot: None,
                nocase: None,
                windows: None,
                contains: None,
                match_base: None,
                nobrace: None,
                nobracket: None,
                noextglob: None,
                noglobstar: None,
                nonegate: None,
                strict_slashes: None,
                max_brace_depth: None,
                max_length: None,
            },
        ),
    }
}

impl JsMatchOptions {
    /// The options asked for, the defaults filling in the rest.
    pub fn into_native(self) -> (o: MatchOptions)
        ensures
            o == native_options(self),
    {
        let mut o = MatchOptions::default();
        if let Some(v) = self.dot {
            o.dot = v;
        }
        if let Some(v) = self.nocase {
            o.nocase = v;
        }
        if let Some(v) = self.windows {
            o.mode = if v {
                Mode::Windows
            } else {
                Mode::Posix
            };
        }
        if let Some(v) = self.contains {
            o.contains = v;
        }
        if let Some(v) = self.match_base {
            o.match_base = v;
        }
        if let Some(v) = self.nobrace {
            o.nobrace = v;
        }
        if let Some(v) = self.nobracket {
            o.nobracket = v;
        }
        if let Some(v) = self.noextglob {
            o.noextglob = v;
        }
        if let Some(v) = self.noglobstar {
            o.noglobstar = v;
        }
        if let Some(v) = self.nonegate {
            o.nonegate = v;
        }
        if let Some(v) = self.strict_slashes {
            o.strict_slashes = v;
        }
        if let Some(v) = self.max_brace_depth {
            o.max_brace_depth = if v < 255 {
                v as u8
            } else {
                255u8
            };
        }
        if let Some(v) = self.max_length {
            o.max_length = v as usize;
        }
        o
    }
}

/// The options of an optional set of overrides.
pub fn opts_or_default(opts: Option<JsMatchOptions>) -> (o: MatchOptions)
    ensures
        o == options_of(opts),
{
    match opts {
        Some(j) => j.into_native(),
        None => JsMatchOptions::default().into_native(),
    }
}

/// `input` matches `pattern`, compiled under `o`; `r` is that answer or the rejection.
pub open spec fn one_shot(pattern: Seq<u8>, o: MatchOptions, input: Seq<u8>, r: Result<bool, ParseError>) -> bool {
    match r {
        Ok(b) => exists|g: CompiledGlob|
            compiled_ok(pattern, o, Ok(g)) && b == matches_spec(g.program, g.opts, input),
        Err(e) => compiled_ok(pattern, o, Err(e)),
    }
}

/// Compiles `pattern` and tests `input` against it.
pub fn is_match(input: &[u8], pattern: &str, options: Option<JsMatchOptions>) -> (r: Result<bool, ParseError>)
    ensures
        one_shot(pattern.spec_bytes(), options_of(options), input@, r),
{
    let opts = opts_or_default(options);
    match CompiledGlob::new(pattern, opts) {
        Ok(g) => {
            let b = crate::matcher::matches(&g.program, &g.opts, input);
            Ok(b)
        },
        Err(e) => Err(e),
    }
}

/// Compiles `pattern` and tests the bytes `input` against it.
pub fn is_match_buffer(input: &[u8], pattern: &str, options: Option<JsMatchOptions>) -> (r: Result<bool, ParseError>)
    ensures
        one_shot(pattern.spec_bytes(), options_of(options), input@, r),
{
    is_match(input, pattern, options)
}

/// The regular-expression source equivalent to `pattern`.
pub fn make_re(pattern: &str, options: Option<JsMatchOptions>) -> (r: Result<String, ParseError>)
    ensures
        match crate::parse::pattern_spec(pattern.spec_bytes(), options_of(options)) {
            crate::parse::PRes::Fail(k, p) => r matches Err(e) && crate::parse::err_is(e, k, p),
            crate::parse::PRes::Done(v, _) => r matches Ok(s) && s@ == crate::regex_emit::re_source(
                v.0,
                v.1,
                options_of(options),
            ),
        },
{
    let opts = opts_or_default(options);
    crate::regex_emit::make_re_source(pattern, &opts)
}

/// The indices of the inputs among the first `k` that `g` matches, in order.
pub open spec fn input_indices(g: CompiledGlob, inputs: Seq<Vec<u8>>, k: int) -> Seq<u32>
    decreases k,
{
    if k <= 0 {
        Seq::empty()
    } else if matches_spec(g.program, g.opts, inputs[k - 1]@) {
        input_indices(g, inputs, k - 1).push((k - 1) as u32)
    } else {
        input_indices(g, inputs, k - 1)
    }
}

/// The strings among the first `k` of `inputs` whose bytes `g` matches, in order.
pub open spec fn kept(g: CompiledGlob, inputs: Seq<String>, k: int) -> Seq<String>
    decreases k,
{
    if k <= 0 {
        Seq::empty()
    } else if matches_spec(g.program, g.opts, encode_utf8(inputs[k - 1]@)) {
        kept(g, inputs, k - 1).push(inputs[k - 1])
    } else {
        kept(g, inputs, k - 1)
    }
}

/// A compiled pattern.
pub struct Glob {
    inner: CompiledGlob,
}

impl Glob {
    #[verifier::type_invariant]
    spec fn inv(self) -> bool {
        self.inner.program.wf()
    }

    /// The compiled pattern.
    pub closed spec fn compiled(self) -> CompiledGlob {
        self.inner
    }

    /// Compiles `pattern`.
    pub fn new(pattern: &str, options: Option<JsMatchOptions>) -> (r: Result<Glob, ParseError>)
        ensures
            match r {
                Ok(g) => compiled_ok(pattern.spec_bytes(), options_of(options), Ok(g.compiled())),
                Err(e) => compiled_ok(pattern.spec_bytes(), options_of(options), Err(e)),
            },
    {
        let opts = opts_or_default(options);
        match CompiledGlob::new(pattern, opts) {
            Ok(inner) => Ok(Glob { inner }),
            Err(e) => Err(e),
        }
    }

    /// Whether the pattern matches `input`.
    pub fn test(&self, input: &[u8]) -> (r: bool)
        ensures
            r == matches_spec(self.compiled().program, self.compiled().opts, input@),
    {
        proof {
            use_type_invariant(self);
        }
        crate::matcher::matches(&self.inner.program, &self.inner.opts, input)
    }

    /// Whether the pattern matches the bytes `input`.
    pub fn test_buffer(&self, input: &[u8]) -> (r: bool)
        ensures
            r == matches_spec(self.compiled().program, self.compiled().opts, input@),
    {
        self.test(input)
    }

    /// Whether the pattern matches each input, in order.
    pub fn test_many(&self, inputs: &[Vec<u8>]) -> (r: Vec<bool>)
        ensures
            r@.len() == inputs@.len(),
            forall|i: int|
                0 <= i < inputs@.len() ==> r@[i] == matches_spec(
                    self.compiled().program,
                    self.compiled().opts,
                    (#[trigger] inputs@[i])@,
                ),
    {
        let mut out: Vec<bool> = Vec::new();
        let mut i: usize = 0;
        while i < inputs.len()
            invariant
                i <= inputs@.len(),
                out@.len() == i,
                forall|k: int|
                    0 <= k < i ==> out@[k] == matches_spec(
                        self.compiled().program,
                        self.compiled().opts,
                        (#[trigger] inputs@[k])@,
                    ),
            decreases inputs@.len() - i,
        {
            let m = self.test(inputs[i].as_slice());
            out.push(m);
            i = i + 1;
        }
        out
    }

    /// The inputs the pattern matches, in order.
    pub fn filter(&self, inputs: Vec<String>) -> (r: Vec<String>)
        ensures
            r@ == kept(self.compiled(), inputs@, inputs@.len() as int),
    {
        let mut out: Vec<String> = Vec::new();
        let mut i: usize = 0;
        while i < inputs.len()
            invariant
                i <= inputs@.len(),
                out@ == kept(self.compiled(), inputs@, i as int),
            decreases inputs@.len() - i,
        {
            let s = inputs[i].clone();
            let m = self.test(s.as_str().as_bytes());
            if m {
                out.push(s);
            }
            i = i + 1;
        }
        out
    }

    /// The indices of the inputs the pattern matches, in order.
    pub fn filter_indices(&self, inputs: &[Vec<u8>]) -> (r: Vec<u32>)
        ensures
            r@ == input_indices(self.compiled(), inputs@, inputs@.len() as int),
    {
        let mut out: Vec<u32> = Vec::new();
        let mut i: usize = 0;
        while i < inputs.len()
            invariant
                i <= inputs@.len(),
                out@ == input_indices(self.compiled(), inputs@, i as int),
            decreases inputs@.len() - i,
        {
            if self.test(inputs[i].as_slice()) {
                out.push(i as u32);
            }
            i = i + 1;
        }
        out
    }

    /// Whether the pattern is negated.
    pub fn negated(&self) -> (r: bool)
        ensures
            r == self.compiled().program.negated,
    {
        self.inner.program.negated
    }
}

/// Several compiled patterns.
pub struct GlobSet {
    inner: GlobSetMatcher,
}

impl GlobSet {
    /// The compiled patterns, in order.
    pub closed spec fn globs(self) -> Seq<CompiledGlob> {
        self.inner.globs()
    }

    /// Compiles every pattern; the first that fails gives the error.
    pub fn new(patterns: &[String], options: Option<JsMatchOptions>) -> (r: Result<GlobSet, ParseError>)
        ensures
            match r {
                Ok(m) => m.globs().len() == patterns@.len() && forall|i: int|
                    0 <= i < patterns@.len() ==> compiled_ok(
                        encode_utf8(#[trigger] patterns@[i]@),
                        options_of(options),
                        Ok(m.globs()[i]),
                    ),
                Err(e) => exists|j: int|
                    0 <= j < patterns@.len() && compiled_ok(
                        encode_utf8(patterns@[j]@),
                        options_of(options),
                        Err(e),
                    ) && forall|i: int|
                        0 <= i < j ==> #[trigger] compiles(encode_utf8(patterns@[i]@), options_of(options)),
            },
    {
        let opts = opts_or_default(options);
        match GlobSetMatcher::new(patterns, opts) {
            Ok(inner) => Ok(GlobSet { inner }),
            Err(e) => Err(e),
        }
    }

    /// Whether the set selects `input`: no negated pattern excludes it, and an un-negated
    /// pattern matches it (or every pattern of the non-empty set is negated).
    pub fn test(&self, input: &[u8]) -> (r: bool)
        ensures
            r == selects(self.globs(), input@),
    {
        self.inner.is_match(input)
    }

    /// Whether the set selects the bytes `input`.
    pub fn test_buffer(&self, input: &[u8]) -> (r: bool)
        ensures
            r == selects(self.globs(), input@),
    {
        self.inner.is_match(input)
    }

    /// `test` on each input, in order.
    pub fn test_many(&self, inputs: &[Vec<u8>]) -> (r: Vec<bool>)
        ensures
            r@.len() == inputs@.len(),
            forall|i: int|
                0 <= i < inputs@.len() ==> r@[i] == selects(self.globs(), (#[trigger] inputs@[i])@),
    {
        let mut out: Vec<bool> = Vec::new();
        let mut i: usize = 0;
        while i < inputs.len()
            invariant
                i <= inputs@.len(),
                out@.len() == i,
                forall|j: int|
                    0 <= j < i ==> out@[j] == selects(self.globs(), (#[trigger] inputs@[j])@),
            decreases inputs@.len() - i,
        {
            let m = self.test(inputs[i].as_slice());
            out.push(m);
            i = i + 1;
        }
        out
    }

    /// The indices of the patterns that select `input`, in order: the un-negated patterns
    /// that match it, or none when a negated pattern excludes it.
    pub fn matches(&self, input: &[u8]) -> (r: Vec<u32>)
        ensures
            r@ == selected_indices(self.globs(), input@),
    {
        let mut out: Vec<u32> = Vec::new();
        self.inner.matched_indices(input, &mut out);
        out
    }
}

} // verus!
