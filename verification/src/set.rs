use vstd::prelude::*;
use vstd::utf8::encode_utf8;

use crate::compile::{compiled_ok, compiles, CompiledGlob};
use crate::matcher::matches_spec;
use crate::options::MatchOptions;
use crate::parse::ParseError;
use crate::search::{find_sub, occurs_at};

verus! {

/// Several compiled patterns, tested together.
pub struct GlobSetMatcher {
    globs: Vec<CompiledGlob>,
    common_literals: Vec<Vec<u8>>,
}

/// The literal a pattern contributes to the set's quick rejection test: its longest
/// top-level literal, when it is not negated and that literal has two bytes or more.
pub open spec fn screen_literal(g: CompiledGlob) -> Option<Seq<u8>> {
    if g.program.negated {
        None
    } else {
        match g.program.prefilter {
            None => None,
            Some(pf) => if pf.1 < 2 {
                None
            } else {
                Some(g.program.pool_range(pf.0, pf.1))
            },
        }
    }
}

/// The literals of the quick rejection test: one per pattern when every pattern has one,
/// otherwise none.
pub open spec fn common_literals_of(gs: Seq<CompiledGlob>) -> Seq<Seq<u8>> {
    if forall|i: int| 0 <= i < gs.len() ==> (#[trigger] screen_literal(gs[i])) is Some {
        Seq::new(gs.len(), |i: int| screen_literal(gs[i])->0)
    } else {
        Seq::empty()
    }
}

/// Pattern `i` of `gs` matches `s`.
pub open spec fn glob_matches(gs: Seq<CompiledGlob>, i: int, s: Seq<u8>) -> bool {
    matches_spec(gs[i].program, gs[i].opts, s)
}

/// The indices of the un-negated patterns among the first `k` of `gs` that match `s`, in
/// order.
pub open spec fn matching_indices(gs: Seq<CompiledGlob>, s: Seq<u8>, k: int) -> Seq<u32>
    decreases k,
{
    if k <= 0 {
        Seq::empty()
    } else if !gs[k - 1].program.negated && glob_matches(gs, k - 1, s) {
        matching_indices(gs, s, k - 1).push((k - 1) as u32)
    } else {
        matching_indices(gs, s, k - 1)
    }
}

/// A negated pattern of `gs` excludes `s`: the pattern behind its `!` matches `s`.
pub open spec fn excluded(gs: Seq<CompiledGlob>, s: Seq<u8>) -> bool {
    exists|i: int| 0 <= i < gs.len() && (#[trigger] gs[i]).program.negated && !glob_matches(gs, i, s)
}

/// Some pattern of `gs` is not negated.
pub open spec fn has_unnegated(gs: Seq<CompiledGlob>) -> bool {
    exists|i: int| 0 <= i < gs.len() && !(#[trigger] gs[i]).program.negated
}

/// The indices `0..n`, in order.
pub open spec fn all_indices(n: int) -> Seq<u32> {
    Seq::new(n as nat, |i: int| i as u32)
}

/// The indices of the patterns that select `s`, in order: none when a negated pattern
/// excludes it; otherwise the un-negated patterns that match it, or every pattern when all
/// of them are negated.
pub open spec fn selected_indices(gs: Seq<CompiledGlob>, s: Seq<u8>) -> Seq<u32> {
    if excluded(gs, s) {
        Seq::empty()
    } else if has_unnegated(gs) {
        matching_indices(gs, s, gs.len() as int)
    } else {
        all_indices(gs.len() as int)
    }
}

/// The set selects `s`: no negated pattern excludes it, and some un-negated pattern
/// matches it or, when every pattern is negated, there is at least one pattern.
pub open spec fn selects(gs: Seq<CompiledGlob>, s: Seq<u8>) -> bool {
    &&& !excluded(gs, s)
    &&& if has_unnegated(gs) {
        exists|i: int| 0 <= i < gs.len() && !gs[i].program.negated && glob_matches(gs, i, s)
    } else {
        gs.len() > 0
    }
}

/// `g` is what some pattern compiles to under `g`'s options.
pub open spec fn compiled_from_pattern(g: CompiledGlob) -> bool {
    exists|pat: Seq<u8>| compiled_ok(pat, g.opts, Ok(g))
}

/// The quick rejection test lets `s` through: some pattern is negated, there are no
/// literals to look for, or one of them occurs in `s` (ignoring ASCII case where its
/// pattern was compiled under `nocase`).
pub open spec fn screen_passes(gs: Seq<CompiledGlob>, s: Seq<u8>) -> bool {
    let lits = common_literals_of(gs);
    (exists|i: int| 0 <= i < gs.len() && (#[trigger] gs[i]).program.negated) || lits.len() == 0
        || exists|j: int| 0 <= j < lits.len() && #[trigger] found_in(s, lits[j], gs[j].opts.nocase)
}

/// `lit` occurs somewhere in `s`, ignoring ASCII case when `nocase`.
pub open spec fn found_in(s: Seq<u8>, lit: Seq<u8>, nocase: bool) -> bool {
    exists|p: int| occurs_at(s, lit, p, nocase)
}

/// The literals `gs` contributes to the quick rejection test.
fn gather_common_literals(globs: &Vec<CompiledGlob>) -> (r: Vec<Vec<u8>>)
    requires
        forall|i: int| 0 <= i < globs@.len() ==> (#[trigger] globs@[i]).program.wf(),
    ensures
        r@.len() == common_literals_of(globs@).len(),
        forall|j: int| 0 <= j < r@.len() ==> (#[trigger] r@[j])@ == common_literals_of(globs@)[j],
{
    let mut out: Vec<Vec<u8>> = Vec::new();
    let mut i: usize = 0;
    while i < globs.len()
        invariant
            i <= globs@.len(),
            forall|k: int| 0 <= k < globs@.len() ==> (#[trigger] globs@[k]).program.wf(),
            forall|k: int| 0 <= k < i ==> (#[trigger] screen_literal(globs@[k])) is Some,
            out@.len() == i,
            forall|k: int| 0 <= k < i ==> (#[trigger] out@[k])@ == screen_literal(globs@[k])->0,
        decreases globs@.len() - i,
    {
        let g = &globs[i];
        if g.program.negated {
            assert(screen_literal(globs@[i as int]) is None);
            return Vec::new();
        }
        let (off, len) = match g.program.prefilter {
            None => {
                assert(screen_literal(globs@[i as int]) is None);
                return Vec::new();
            },
            Some(pf) => pf,
        };
        if len < 2 {
            assert(screen_literal(globs@[i as int]) is None);
            return Vec::new();
        }
        let start = off as usize;
        let plen = g.program.pool.len();
        assert(start + len <= plen);
        let lit = vstd::slice::slice_to_vec(&g.program.pool[start..start + len as usize]);
        out.push(lit);
        i = i + 1;
    }
    proof {
        assert(out@.len() == common_literals_of(globs@).len());
    }
    out
}

impl GlobSetMatcher {
    /// The set is well formed: every program is consistent and compiled from a pattern, and
    /// the rejection literals are those of the patterns.
    #[verifier::type_invariant]
    spec fn inv(self) -> bool {
        &&& forall|i: int| 0 <= i < self.globs@.len() ==> (#[trigger] self.globs@[i]).program.wf()
        &&& forall|i: int| 0 <= i < self.globs@.len() ==> #[trigger] compiled_from_pattern(self.globs@[i])
        &&& self.common_literals@.len() == common_literals_of(self.globs@).len()
        &&& forall|j: int|
            0 <= j < self.common_literals@.len() ==> (#[trigger] self.common_literals@[j])@
                == common_literals_of(self.globs@)[j]
    }

    /// The compiled patterns, in the order given.
    pub closed spec fn globs(self) -> Seq<CompiledGlob> {
        self.globs@
    }

    /// Compiles every pattern; the first pattern that fails gives the error.
    pub fn new(patterns: &[String], opts: MatchOptions) -> (r: Result<GlobSetMatcher, ParseError>)
        ensures
            match r {
                Ok(m) => m.globs().len() == patterns@.len() && forall|i: int|
                    0 <= i < patterns@.len() ==> compiled_ok(
                        encode_utf8(#[trigger] patterns@[i]@),
                        opts,
                        Ok(m.globs()[i]),
                    ),
                Err(e) => exists|j: int|
                    0 <= j < patterns@.len() && compiled_ok(encode_utf8(patterns@[j]@), opts, Err(e))
                        && forall|i: int| 0 <= i < j ==> #[trigger] compiles(encode_utf8(patterns@[i]@), opts),
            },
    {
        let mut globs: Vec<CompiledGlob> = Vec::new();
        let mut i: usize = 0;
        while i < patterns.len()
            invariant
                i <= patterns@.len(),
                globs@.len() == i,
                forall|k: int|
                    0 <= k < i ==> compiled_ok(
                        encode_utf8(#[trigger] patterns@[k]@),
                        opts,
                        Ok(globs@[k]),
                    ),
            decreases patterns@.len() - i,
        {
            let r = CompiledGlob::new(patterns[i].as_str(), opts);
            match r {
                Ok(g) => {
                    globs.push(g);
                },
                Err(e) => {
                    proof {
                        assert forall|k: int| 0 <= k < i implies #[trigger] compiles(encode_utf8(patterns@[k]@), opts) by {
                            assert(compiled_ok(encode_utf8(patterns@[k]@), opts, Ok(globs@[k])));
                        }
                    }
                    return Err(e);
                },
            }
            i = i + 1;
        }
        proof {
            assert forall|k: int| 0 <= k < globs@.len() implies (#[trigger] globs@[k]).program.wf() by {
                assert(compiled_ok(encode_utf8(patterns@[k]@), opts, Ok(globs@[k])));
            }
            assert forall|k: int| 0 <= k < globs@.len() implies #[trigger] compiled_from_pattern(globs@[k]) by {
                assert(compiled_ok(encode_utf8(patterns@[k]@), opts, Ok(globs@[k])));
                assert(globs@[k].opts == opts);
            }
        }
        let common = gather_common_literals(&globs);
        Ok(GlobSetMatcher { globs, common_literals: common })
    }

    /// The quick rejection test: whether `input` may be selected at all.
    fn screen(&self, input: &[u8]) -> (r: bool)
        ensures
            r == screen_passes(self.globs@, input@),
    {
        proof {
            use_type_invariant(self);
        }
        let ghost gs = self.globs@;
        let mut any_negated = false;
        let mut i: usize = 0;
        while i < self.globs.len()
            invariant
                gs == self.globs@,
                i <= gs.len(),
                any_negated == exists|k: int| 0 <= k < i && (#[trigger] gs[k]).program.negated,
            decreases gs.len() - i,
        {
            if self.globs[i].program.negated {
                any_negated = true;
            }
            i = i + 1;
        }
        proof {
            if any_negated {
                let k = choose|k: int| 0 <= k < i && (#[trigger] gs[k]).program.negated;
                assert(gs[k].program.negated);
            }
        }
        if any_negated || self.common_literals.len() == 0 {
            return true;
        }
        let ghost lits = common_literals_of(gs);
        assert(lits.len() == gs.len());
        let mut j: usize = 0;
        while j < self.common_literals.len()
            invariant
                gs == self.globs@,
                lits == common_literals_of(gs),
                lits.len() == gs.len(),
                self.common_literals@.len() == lits.len(),
                forall|k: int| 0 <= k < lits.len() ==> (#[trigger] self.common_literals@[k])@ == lits[k],
                j <= lits.len(),
                forall|k: int| 0 <= k < j ==> !#[trigger] found_in(input@, lits[k], gs[k].opts.nocase),
            decreases lits.len() - j,
        {
            let lit = self.common_literals[j].as_slice();
            let nc = self.globs[j].opts.nocase;
            let hit = if nc {
                crate::search::memmem_nocase(input, lit)
            } else {
                let f = find_sub(input, lit);
                proof {
                    if let Some(p) = f {
                        assert(occurs_at(input@, lit@, p as int, false));
                    }
                }
                f.is_some()
            };
            if hit {
                proof {
                    assert(found_in(input@, lits[j as int], gs[j as int].opts.nocase));
                }
                return true;
            }
            j = j + 1;
        }
        false
    }

    /// Whether a negated pattern excludes `input`.
    fn excluded_by_negation(&self, input: &[u8]) -> (r: bool)
        ensures
            r == excluded(self.globs@, input@),
    {
        proof {
            use_type_invariant(self);
        }
        let ghost gs = self.globs@;
        let mut i: usize = 0;
        while i < self.globs.len()
            invariant
                gs == self.globs@,
                i <= gs.len(),
                forall|k: int| 0 <= k < gs.len() ==> (#[trigger] gs[k]).program.wf(),
                forall|k: int| 0 <= k < i ==> !((#[trigger] gs[k]).program.negated && !glob_matches(gs, k, input@)),
            decreases gs.len() - i,
        {
            let g = &self.globs[i];
            if g.program.negated && !crate::matcher::matches(&g.program, &g.opts, input) {
                assert(gs[i as int].program.negated && !glob_matches(gs, i as int, input@));
                return true;
            }
            i = i + 1;
        }
        false
    }

    /// Whether some pattern of the set is not negated.
    fn any_unnegated(&self) -> (r: bool)
        ensures
            r == has_unnegated(self.globs@),
    {
        let ghost gs = self.globs@;
        let mut i: usize = 0;
        while i < self.globs.len()
            invariant
                gs == self.globs@,
                i <= gs.len(),
                forall|k: int| 0 <= k < i ==> (#[trigger] gs[k]).program.negated,
            decreases gs.len() - i,
        {
            if !self.globs[i].program.negated {
                assert(!gs[i as int].program.negated);
                return true;
            }
            i = i + 1;
        }
        false
    }

    /// Whether the set selects `input`: no negated pattern excludes it, and some un-negated
    /// pattern matches it (or the set is not empty and every pattern is negated). The quick
    /// rejection test runs first.
    pub fn is_match(&self, input: &[u8]) -> (r: bool)
        ensures
            r == selects(self.globs(), input@),
    {
        proof {
            use_type_invariant(self);
        }
        let ghost gs = self.globs@;
        if !self.screen(input) {
            proof {
                crate::screen::law_set_screen_sound(gs, input@);
                if !has_unnegated(gs) && gs.len() > 0 {
                    assert(gs[0].program.negated);
                }
            }
            return false;
        }
        if self.excluded_by_negation(input) {
            return false;
        }
        if !self.any_unnegated() {
            return self.globs.len() > 0;
        }
        let mut i: usize = 0;
        while i < self.globs.len()
            invariant
                gs == self.globs@,
                i <= gs.len(),
                !excluded(gs, input@),
                has_unnegated(gs),
                forall|k: int| 0 <= k < gs.len() ==> (#[trigger] gs[k]).program.wf(),
                forall|k: int| 0 <= k < i ==> !(!(#[trigger] gs[k]).program.negated && glob_matches(gs, k, input@)),
            decreases gs.len() - i,
        {
            let g = &self.globs[i];
            if !g.program.negated && crate::matcher::matches(&g.program, &g.opts, input) {
                assert(!gs[i as int].program.negated && glob_matches(gs, i as int, input@));
                return true;
            }
            i = i + 1;
        }
        false
    }

    /// Sets `out` to the indices of the patterns that select `input`, in increasing order:
    /// none when a negated pattern excludes it; otherwise the un-negated patterns that match
    /// it, or every pattern when all of them are negated.
    pub fn matched_indices(&self, input: &[u8], out: &mut Vec<u32>)
        ensures
            final(out)@ == selected_indices(self.globs(), input@),
    {
        proof {
            use_type_invariant(self);
        }
        let ghost gs = self.globs@;
        out.clear();
        if self.excluded_by_negation(input) {
            return;
        }
        let positive = self.any_unnegated();
        let mut i: usize = 0;
        while i < self.globs.len()
            invariant
                gs == self.globs@,
                i <= gs.len(),
                positive == has_unnegated(gs),
                forall|k: int| 0 <= k < gs.len() ==> (#[trigger] gs[k]).program.wf(),
                out@ == if positive {
                    matching_indices(gs, input@, i as int)
                } else {
                    all_indices(i as int)
                },
            decreases gs.len() - i,
        {
            let g = &self.globs[i];
            if positive {
                if !g.program.negated && crate::matcher::matches(&g.program, &g.opts, input) {
                    out.push(i as u32);
                }
            } else {
                out.push(i as u32);
                assert(out@ =~= all_indices(i + 1));
            }
            i = i + 1;
        }
    }
}

} // verus!
