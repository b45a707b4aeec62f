use vstd::prelude::*;

use crate::options::{sep_spec, Mode};
use crate::util::{ascii_lower, bytes_eq, lower_spec};

verus! {

/// `a` equals `b`, comparing the ASCII-lower-cased bytes of `a` with `b` when `nocase` is set.
pub open spec fn cased_eq(a: Seq<u8>, b: Seq<u8>, nocase: bool) -> bool {
    &&& a.len() == b.len()
    &&& forall|i: int|
        0 <= i < a.len() ==> (if nocase {
            lower_spec(#[trigger] a[i]) == b[i]
        } else {
            a[i] == b[i]
        })
}

/// `n` occurs in `h` at index `i`.
pub open spec fn occurs_at(h: Seq<u8>, n: Seq<u8>, i: int, nocase: bool) -> bool {
    &&& 0 <= i
    &&& i + n.len() <= h.len()
    &&& cased_eq(h.subrange(i, i + n.len()), n, nocase)
}

/// The end of the path segment that starts at `i`: the index of the first separator at
/// or after `i`, or the length of `s`.
pub open spec fn seg_end(s: Seq<u8>, mode: Mode, i: int) -> int
    decreases s.len() - i,
{
    if i >= s.len() || i < 0 {
        s.len() as int
    } else if sep_spec(mode, s[i]) {
        i
    } else {
        seg_end(s, mode, i + 1)
    }
}

/// The start of the path segment that ends at `n`: one past the last separator before `n`,
/// or 0.
pub open spec fn seg_start(s: Seq<u8>, mode: Mode, n: int) -> int
    decreases n,
{
    if n <= 0 {
        0
    } else if sep_spec(mode, s[n - 1]) {
        n
    } else {
        seg_start(s, mode, n - 1)
    }
}

/// Whether `s` holds a separator.
pub open spec fn has_sep(s: Seq<u8>, mode: Mode) -> bool {
    exists|i: int| 0 <= i < s.len() && sep_spec(mode, #[trigger] s[i])
}

pub proof fn lemma_seg_end(s: Seq<u8>, mode: Mode, i: int)
    requires
        0 <= i <= s.len(),
    ensures
        i <= seg_end(s, mode, i) <= s.len(),
        forall|j: int| i <= j < seg_end(s, mode, i) ==> !sep_spec(mode, #[trigger] s[j]),
        seg_end(s, mode, i) < s.len() ==> sep_spec(mode, s[seg_end(s, mode, i)]),
    decreases s.len() - i,
{
    if i < s.len() && !sep_spec(mode, s[i]) {
        lemma_seg_end(s, mode, i + 1);
    }
}

pub proof fn lemma_seg_start(s: Seq<u8>, mode: Mode, n: int)
    requires
        0 <= n <= s.len(),
    ensures
        0 <= seg_start(s, mode, n) <= n,
        forall|j: int| seg_start(s, mode, n) <= j < n ==> !sep_spec(mode, #[trigger] s[j]),
        seg_start(s, mode, n) > 0 ==> sep_spec(mode, s[seg_start(s, mode, n) - 1]),
    decreases n,
{
    if n > 0 && !sep_spec(mode, s[n - 1]) {
        lemma_seg_start(s, mode, n - 1);
    }
}

/// The first separator at or after `i` decides `seg_end`.
pub proof fn lemma_seg_end_unique(s: Seq<u8>, mode: Mode, i: int, e: int)
    requires
        0 <= i <= e <= s.len(),
        forall|j: int| i <= j < e ==> !sep_spec(mode, #[trigger] s[j]),
        e < s.len() ==> sep_spec(mode, s[e]),
    ensures
        seg_end(s, mode, i) == e,
    decreases e - i,
{
    if i < e {
        lemma_seg_end_unique(s, mode, i + 1, e);
    }
}

/// The last separator before `n` decides `seg_start`.
pub proof fn lemma_seg_start_unique(s: Seq<u8>, mode: Mode, n: int, st: int)
    requires
        0 <= st <= n <= s.len(),
        forall|j: int| st <= j < n ==> !sep_spec(mode, #[trigger] s[j]),
        st > 0 ==> sep_spec(mode, s[st - 1]),
    ensures
        seg_start(s, mode, n) == st,
    decreases n - st,
{
    if st < n {
        lemma_seg_start_unique(s, mode, n - 1, st);
    }
}

/// `memchr::memchr`: the index of the first occurrence of byte `x` in `h`.
#[verifier::external_body]
pub(crate) fn find_byte(x: u8, h: &[u8]) -> (r: Option<usize>)
    ensures
        r matches Some(i) ==> i < h@.len() && h@[i as int] == x,
        r matches Some(i) ==> forall|j: int| 0 <= j < i ==> h@[j] != x,
        r is None ==> forall|j: int| 0 <= j < h@.len() ==> h@[j] != x,
{
    memchr::memchr(x, h)
}

/// `memchr::memchr2`: the index of the first byte of `h` that is `x` or `y`.
#[verifier::external_body]
fn find_byte2(x: u8, y: u8, h: &[u8]) -> (r: Option<usize>)
    ensures
        r matches Some(i) ==> i < h@.len() && (h@[i as int] == x || h@[i as int] == y),
        r matches Some(i) ==> forall|j: int| 0 <= j < i ==> h@[j] != x && h@[j] != y,
        r is None ==> forall|j: int| 0 <= j < h@.len() ==> h@[j] != x && h@[j] != y,
{
    memchr::memchr2(x, y, h)
}

/// `memchr::memrchr`: the index of the last occurrence of byte `x` in `h`.
#[verifier::external_body]
fn rfind_byte(x: u8, h: &[u8]) -> (r: Option<usize>)
    ensures
        r matches Some(i) ==> i < h@.len() && h@[i as int] == x,
        r matches Some(i) ==> forall|j: int| i < j < h@.len() ==> h@[j] != x,
        r is None ==> forall|j: int| 0 <= j < h@.len() ==> h@[j] != x,
{
    memchr::memrchr(x, h)
}

/// `memchr::memrchr2`: the index of the last byte of `h` that is `x` or `y`.
#[verifier::external_body]
fn rfind_byte2(x: u8, y: u8, h: &[u8]) -> (r: Option<usize>)
    ensures
        r matches Some(i) ==> i < h@.len() && (h@[i as int] == x || h@[i as int] == y),
        r matches Some(i) ==> forall|j: int| i < j < h@.len() ==> h@[j] != x && h@[j] != y,
        r is None ==> forall|j: int| 0 <= j < h@.len() ==> h@[j] != x && h@[j] != y,
{
    memchr::memrchr2(x, y, h)
}

/// `memchr::memmem::find`: the index of the first occurrence of `n` in `h` (an empty
/// needle occurs at index 0).
#[verifier::external_body]
pub(crate) fn find_sub(h: &[u8], n: &[u8]) -> (r: Option<usize>)
    ensures
        r matches Some(i) ==> occurs_at(h@, n@, i as int, false),
        r matches Some(i) ==> forall|j: int| 0 <= j < i ==> !occurs_at(h@, n@, j, false),
        r is None ==> forall|j: int| !occurs_at(h@, n@, j, false),
{
    memchr::memmem::find(h, n)
}

/// Whether `s` holds a separator byte.
pub fn contains_sep(s: &[u8], mode: Mode) -> (r: bool)
    ensures
        r == has_sep(s@, mode),
{
    match mode {
        Mode::Posix => find_byte(47u8, s).is_some(),
        Mode::Windows => find_byte2(47u8, 92u8, s).is_some(),
    }
}

/// One past the last separator in `input`, or 0 when it holds none.
pub fn last_seg_start(input: &[u8], mode: Mode) -> (r: usize)
    ensures
        r == seg_start(input@, mode, input@.len() as int),
{
    let _n = input.len();
    let r = match mode {
        Mode::Posix => match rfind_byte(47u8, input) {
            Some(p) => p + 1,
            None => 0,
        },
        Mode::Windows => match rfind_byte2(47u8, 92u8, input) {
            Some(p) => p + 1,
            None => 0,
        },
    };
    proof {
        lemma_seg_start_unique(input@, mode, input@.len() as int, r as int);
    }
    r
}

/// The last path segment of `path`.
pub fn basename(path: &[u8], mode: Mode) -> (r: &[u8])
    ensures
        r@ == path@.subrange(seg_start(path@, mode, path@.len() as int), path@.len() as int),
{
    let st = last_seg_start(path, mode);
    proof {
        lemma_seg_start(path@, mode, path@.len() as int);
    }
    &path[st..path.len()]
}

/// Compares `a`, ASCII-lower-cased, with `b_lower`.
pub fn eq_lowered(a: &[u8], b_lower: &[u8]) -> (r: bool)
    requires
        a@.len() == b_lower@.len(),
    ensures
        r == cased_eq(a@, b_lower@, true),
{
    let mut i: usize = 0;
    while i < a.len()
        invariant
            a@.len() == b_lower@.len(),
            i <= a@.len(),
            forall|j: int| 0 <= j < i ==> lower_spec(#[trigger] a@[j]) == b_lower@[j],
        decreases a@.len() - i,
    {
        if ascii_lower(a[i]) != b_lower[i] {
            return false;
        }
        i = i + 1;
    }
    true
}

/// Compares `a` with `b`, ignoring the ASCII case of `a` when `nocase` is set.
pub fn eq_cased(a: &[u8], b: &[u8], nocase: bool) -> (r: bool)
    ensures
        r == cased_eq(a@, b@, nocase),
{
    if a.len() != b.len() {
        return false;
    }
    if nocase {
        eq_lowered(a, b)
    } else {
        let r = bytes_eq(a, b);
        assert(r == cased_eq(a@, b@, false)) by {
            if cased_eq(a@, b@, false) {
                assert(a@ =~= b@);
            }
        }
        r
    }
}

/// Whether `input` starts with `needle` (case folded as `eq_cased`).
pub fn starts_with_cased(input: &[u8], needle: &[u8], nocase: bool) -> (r: bool)
    ensures
        r == occurs_at(input@, needle@, 0, nocase),
{
    if input.len() < needle.len() {
        return false;
    }
    eq_cased(&input[0..needle.len()], needle, nocase)
}

/// Whether `input` ends with `needle` (case folded as `eq_cased`).
pub fn ends_with_cased(input: &[u8], needle: &[u8], nocase: bool) -> (r: bool)
    ensures
        r == (input@.len() >= needle@.len() && occurs_at(
            input@,
            needle@,
            input@.len() - needle@.len(),
            nocase,
        )),
{
    if input.len() < needle.len() {
        return false;
    }
    let tail = &input[input.len() - needle.len()..input.len()];
    eq_cased(tail, needle, nocase)
}

/// The first index at or after `from` where `needle_lower` occurs in `haystack`, comparing
/// ASCII-lower-cased haystack bytes.
pub fn memmem_nocase_from(haystack: &[u8], needle_lower: &[u8], from: usize) -> (r: Option<usize>)
    requires
        from <= haystack@.len(),
    ensures
        r matches Some(i) ==> from <= i && occurs_at(haystack@, needle_lower@, i as int, true),
        r matches Some(i) ==> forall|j: int|
            from <= j < i ==> !occurs_at(haystack@, needle_lower@, j, true),
        r is None ==> forall|j: int| from <= j ==> !occurs_at(haystack@, needle_lower@, j, true),
{
    if needle_lower.len() == 0 {
        proof {
            assert(occurs_at(haystack@, needle_lower@, from as int, true)) by {
                assert(haystack@.subrange(from as int, from as int).len() == 0);
            }
        }
        return Some(if from < haystack.len() {
            from
        } else {
            haystack.len()
        });
    }
    if needle_lower.len() > haystack.len() || from > haystack.len() - needle_lower.len() {
        return None;
    }
    let nl = needle_lower[0];
    let nu = if 97u8 <= nl && nl <= 122u8 {
        nl & !0x20u8
    } else {
        nl
    };
    proof {
        if 97u8 <= nl <= 122u8 {
            assert(nl & !0x20u8 == nl - 32) by (bit_vector)
                requires
                    97u8 <= nl <= 122u8,
            ;
        }
    }
    let mut i = from;
    while i <= haystack.len() - needle_lower.len()
        invariant
            from <= i <= haystack@.len(),
            needle_lower@.len() <= haystack@.len(),
            needle_lower@.len() > 0,
            nl == needle_lower@[0],
            nu == (if 97u8 <= nl <= 122u8 { (nl - 32) as u8 } else { nl }),
            forall|j: int| from <= j < i ==> !occurs_at(haystack@, needle_lower@, j, true),
        decreases haystack@.len() - i,
    {
        let rest = &haystack[i..haystack.len()];
        let rel = if nl == nu {
            find_byte(nl, rest)
        } else {
            find_byte2(nl, nu, rest)
        };
        let start = match rel {
            Some(r) => r + i,
            None => {
                assert forall|j: int| from <= j implies !occurs_at(
                    haystack@,
                    needle_lower@,
                    j,
                    true,
                ) by {
                    if i <= j < haystack@.len() && occurs_at(haystack@, needle_lower@, j, true) {
                        assert(lower_spec(haystack@.subrange(j, j + needle_lower@.len())[0])
                            == needle_lower@[0]);
                        assert(rest@[j - i] == haystack@[j]);
                    }
                }
                return None;
            },
        };
        proof {
            assert forall|j: int| from <= j < start implies !occurs_at(
                haystack@,
                needle_lower@,
                j,
                true,
            ) by {
                if i <= j && occurs_at(haystack@, needle_lower@, j, true) {
                    assert(lower_spec(haystack@.subrange(j, j + needle_lower@.len())[0])
                        == needle_lower@[0]);
                    assert(rest@[j - i] == haystack@[j]);
                }
            }
        }
        if start > haystack.len() - needle_lower.len() {
            return None;
        }
        if eq_lowered(&haystack[start..start + needle_lower.len()], needle_lower) {
            return Some(start);
        }
        i = start + 1;
    }
    return None;
}

/// Whether `needle_lower` occurs anywhere in `haystack`, comparing ASCII-lower-cased
/// haystack bytes.
pub fn memmem_nocase(haystack: &[u8], needle_lower: &[u8]) -> (r: bool)
    ensures
        r == exists|j: int| occurs_at(haystack@, needle_lower@, j, true),
{
    let r = memmem_nocase_from(haystack, needle_lower, 0);
    proof {
        if let Some(i) = r {
            assert(occurs_at(haystack@, needle_lower@, i as int, true));
        }
    }
    r.is_some()
}

/// The first index at or after `from` where `needle` occurs in `hay` (case folded as
/// `eq_cased`).
pub fn find_cased_from(hay: &[u8], needle: &[u8], from: usize, nocase: bool) -> (r: Option<usize>)
    requires
        from <= hay@.len(),
    ensures
        r matches Some(i) ==> from <= i && occurs_at(hay@, needle@, i as int, nocase),
        r matches Some(i) ==> forall|j: int|
            from <= j < i ==> !occurs_at(hay@, needle@, j, nocase),
        r is None ==> forall|j: int| from <= j ==> !occurs_at(hay@, needle@, j, nocase),
{
    if nocase {
        memmem_nocase_from(hay, needle, from)
    } else {
        let rest = &hay[from..hay.len()];
        let f = find_sub(rest, needle);
        proof {
            assert forall|j: int| from <= j implies occurs_at(hay@, needle@, j, false)
                == occurs_at(rest@, needle@, j - from, false) by {
                if from <= j && j + needle@.len() <= hay@.len() {
                    assert(hay@.subrange(j, j + needle@.len()) =~= rest@.subrange(
                        j - from,
                        j - from + needle@.len(),
                    ));
                }
            }
        }
        match f {
            Some(p) => {
                proof {
                    assert forall|j: int| from <= j < p + from implies !occurs_at(
                        hay@,
                        needle@,
                        j,
                        false,
                    ) by {
                        assert(!occurs_at(rest@, needle@, j - from, false));
                    }
                }
                Some(p + from)
            },
            None => {
                proof {
                    assert forall|j: int| from <= j implies !occurs_at(hay@, needle@, j, false) by {
                        assert(!occurs_at(rest@, needle@, j - from, false));
                    }
                }
                None
            },
        }
    }
}

} // verus!
