use vstd::prelude::*;

verus! {

/// Whether bit `k` of the word `w` is set.
pub open spec fn bit(w: u64, k: u64) -> bool {
    (w >> k) & 1u64 == 1u64
}

pub open spec fn is_upper(b: u8) -> bool {
    65u8 <= b <= 90u8
}

pub open spec fn is_lower(b: u8) -> bool {
    97u8 <= b <= 122u8
}

/// ASCII lower-casing of one byte.
pub open spec fn lower_spec(b: u8) -> u8 {
    if is_upper(b) {
        (b + 32) as u8
    } else {
        b
    }
}

/// A set of bytes, one bit per byte value.
#[derive(Clone, Copy, Debug)]
pub struct ByteClass {
    pub bits: [u64; 4],
}

proof fn lemma_or_bit(w: u64, c: u64, k: u64)
    requires
        c < 64,
        k < 64,
    ensures
        bit(w | (1u64 << c), k) == (bit(w, k) || k == c),
{
    assert(((w | (1u64 << c)) >> k) & 1u64 == 1u64 <==> (((w >> k) & 1u64 == 1u64) || k == c))
        by (bit_vector)
        requires
            c < 64,
            k < 64,
    ;
}

proof fn lemma_not_bit(w: u64, k: u64)
    requires
        k < 64,
    ensures
        bit(!w, k) == !bit(w, k),
{
    assert(((!w) >> k) & 1u64 == 1u64 <==> !((w >> k) & 1u64 == 1u64)) by (bit_vector)
        requires
            k < 64,
    ;
}

pub proof fn lemma_clear_bit(w: u64, c: u64, k: u64)
    requires
        c < 64,
        k < 64,
    ensures
        bit(w & !(1u64 << c), k) == (bit(w, k) && k != c),
{
    assert(((w & !(1u64 << c)) >> k) & 1u64 == 1u64 <==> (((w >> k) & 1u64 == 1u64) && k != c))
        by (bit_vector)
        requires
            c < 64,
            k < 64,
    ;
}

pub proof fn lemma_union_bit(a: u64, b: u64, k: u64)
    requires
        k < 64,
    ensures
        bit(a | b, k) == (bit(a, k) || bit(b, k)),
{
    assert(((a | b) >> k) & 1u64 == 1u64 <==> (((a >> k) & 1u64 == 1u64) || ((b >> k) & 1u64
        == 1u64))) by (bit_vector)
        requires
            k < 64,
    ;
}

proof fn lemma_fold_bit(w: u64, k: u64)
    requires
        k < 64,
    ensures
        bit(
            w | ((w & 0x07FF_FFFEu64) << 32u64) | ((w & 0x07FF_FFFE_0000_0000u64) >> 32u64),
            k,
        ) == (bit(w, k) || (1 <= k <= 26 && bit(w, (k + 32) as u64)) || (33 <= k <= 58 && bit(
            w,
            (k - 32) as u64,
        ))),
{
    assert(((w | ((w & 0x07FF_FFFEu64) << 32u64) | ((w & 0x07FF_FFFE_0000_0000u64) >> 32u64)) >> k) & 1u64 == 1u64 <==> (((w >> k) & 1u64 == 1u64) || (1 <= k
        <= 26 && ((w >> ((k + 32) as u64)) & 1u64 == 1u64)) || (33 <= k <= 58 && ((w >> ((k
        - 32) as u64)) & 1u64 == 1u64)))) by (bit_vector)
        requires
            k < 64,
    ;
}

pub proof fn lemma_split_byte(b: u8)
    ensures
        (b >> 6u8) as int == b as int / 64,
        (b & 63u8) as int == b as int % 64,
{
    assert((b >> 6u8) as int == b as int / 64) by (bit_vector);
    assert((b & 63u8) as int == b as int % 64) by (bit_vector);
}

impl ByteClass {
    /// Whether byte `b` is in the class.
    pub open spec fn has(self, b: u8) -> bool {
        bit(self.bits@[b as int / 64], (b as int % 64) as u64)
    }

    /// The class with no members.
    pub fn empty() -> (c: Self)
        ensures
            forall|b: u8| !c.has(b),
    {
        let c = ByteClass { bits: [0u64; 4] };
        assert forall|b: u8| !c.has(b) by {
            let k = (b as int % 64) as u64;
            assert((0u64 >> k) & 1u64 == 0u64) by (bit_vector);
        }
        c
    }

    /// Adds byte `b` to the class.
    pub fn set(&mut self, b: u8)
        ensures
            forall|x: u8| #[trigger] final(self).has(x) == (old(self).has(x) || x == b),
    {
        proof {
            lemma_split_byte(b);
        }
        let i = (b >> 6) as usize;
        let sh = (b & 63) as u64;
        let m = 1u64 << sh;
        let w = self.bits[i] | m;
        self.bits[i] = w;
        assert forall|x: u8| #[trigger] self.has(x) == (old(self).has(x) || x == b) by {
            let k = (x as int % 64) as u64;
            lemma_or_bit(old(self).bits@[i as int], sh, k);
        }
    }

    /// Adds every byte between `lo` and `hi` (in either order) to the class.
    pub fn add_range(&mut self, lo: u8, hi: u8)
        ensures
            forall|x: u8|
                #[trigger] final(self).has(x) == (old(self).has(x) || (lo <= x <= hi) || (hi
                    <= x <= lo)),
    {
        let (lo2, hi2) = if lo <= hi {
            (lo, hi)
        } else {
            (hi, lo)
        };
        let mut b = lo2;
        loop
            invariant_except_break
                lo2 <= b <= hi2,
                forall|x: u8| #[trigger] self.has(x) == (old(self).has(x) || (lo2 <= x < b)),
            invariant
                lo2 == (if lo <= hi { lo } else { hi }),
                hi2 == (if lo <= hi { hi } else { lo }),
            ensures
                forall|x: u8| #[trigger] self.has(x) == (old(self).has(x) || (lo2 <= x <= hi2)),
            decreases hi2 - b,
        {
            self.set(b);
            if b == hi2 {
                break;
            }
            b = b + 1;
        }
    }

    /// Removes byte `b` from the class.
    pub fn remove(&mut self, b: u8)
        ensures
            forall|x: u8| #[trigger] final(self).has(x) == (old(self).has(x) && x != b),
    {
        proof {
            lemma_split_byte(b);
        }
        let i = (b >> 6) as usize;
        let sh = (b & 63) as u64;
        let m = 1u64 << sh;
        let w = self.bits[i] & !m;
        self.bits[i] = w;
        assert forall|x: u8| #[trigger] self.has(x) == (old(self).has(x) && x != b) by {
            let k = (x as int % 64) as u64;
            lemma_clear_bit(old(self).bits@[i as int], sh, k);
        }
    }

    /// Adds every member of `other` to the class.
    pub fn union_with(&mut self, other: &ByteClass)
        ensures
            forall|x: u8| #[trigger] final(self).has(x) == (old(self).has(x) || other.has(x)),
    {
        let mut i: usize = 0;
        while i < 4
            invariant
                i <= 4,
                forall|j: int| 0 <= j < i ==> self.bits@[j] == old(self).bits@[j] | other.bits@[j],
                forall|j: int| i <= j < 4 ==> self.bits@[j] == old(self).bits@[j],
            decreases 4 - i,
        {
            let w = self.bits[i] | other.bits[i];
            self.bits[i] = w;
            i = i + 1;
        }
        assert forall|x: u8| #[trigger] self.has(x) == (old(self).has(x) || other.has(x)) by {
            lemma_union_bit(old(self).bits@[x as int / 64], other.bits@[x as int / 64], (x as int % 64) as u64);
        }
    }

    /// Whether byte `b` is in the class.
    pub fn contains(self, b: u8) -> (r: bool)
        ensures
            r == self.has(b),
    {
        proof {
            lemma_split_byte(b);
        }
        let i = (b >> 6) as usize;
        let m = 1u64 << ((b & 63) as u64);
        let w = self.bits[i];
        let r = (w & m) != 0;
        proof {
            let k = (b & 63u8) as u64;
            assert(k < 64) by (bit_vector)
                requires
                    k == (b & 63u8) as u64,
            ;
            assert(((w & (1u64 << k)) != 0u64) == ((w >> k) & 1u64 == 1u64)) by (bit_vector)
                requires
                    k < 64,
            ;
        }
        r
    }

    /// Adds the other ASCII case of every letter in the class.
    pub fn fold_ascii_case(&mut self)
        ensures
            forall|x: u8|
                #[trigger] final(self).has(x) == (old(self).has(x) || (is_upper(x) && old(
                    self,
                ).has((x + 32) as u8)) || (is_lower(x) && old(self).has((x - 32) as u8))),
    {
        let w = self.bits[1];
        let upper_mask: u64 = 0x07FF_FFFE;
        let lower_mask: u64 = 0x07FF_FFFE_0000_0000;
        let uppers = w & upper_mask;
        let lowers = w & lower_mask;
        let promoted_lowers = uppers << 32u64;
        let promoted_uppers = lowers >> 32u64;
        self.bits[1] = w | promoted_lowers | promoted_uppers;
        assert forall|x: u8|
            #[trigger] self.has(x) == (old(self).has(x) || (is_upper(x) && old(self).has(
                (x + 32) as u8,
            )) || (is_lower(x) && old(self).has((x - 32) as u8))) by {
            let k = (x as int % 64) as u64;
            if 64 <= x < 128 {
                lemma_fold_bit(w, k);
            }
        }
    }

    /// Replaces the class by its complement.
    pub fn negate(&mut self)
        ensures
            forall|x: u8| #[trigger] final(self).has(x) == !old(self).has(x),
    {
        let mut i: usize = 0;
        while i < 4
            invariant
                i <= 4,
                forall|j: int| 0 <= j < i ==> self.bits@[j] == !old(self).bits@[j],
                forall|j: int| i <= j < 4 ==> self.bits@[j] == old(self).bits@[j],
            decreases 4 - i,
        {
            let w = self.bits[i];
            self.bits[i] = !w;
            i = i + 1;
        }
        assert forall|x: u8| #[trigger] self.has(x) == !old(self).has(x) by {
            lemma_not_bit(old(self).bits@[x as int / 64], (x as int % 64) as u64);
        }
    }
}

/// Lower-cases an ASCII upper-case letter; other bytes are returned as they are.
pub fn ascii_lower(b: u8) -> (r: u8)
    ensures
        r == lower_spec(b),
{
    let is_up = b.wrapping_sub(65u8) < 26;
    if is_up {
        assert(is_upper(b)) by (bit_vector)
            requires
                (if b >= 65u8 { (b - 65u8) as int } else { b + 256 - 65 }) < 26,
        ;
        assert(b | 0x20u8 == b + 32) by (bit_vector)
            requires
                65u8 <= b <= 90u8,
        ;
        b | 0x20
    } else {
        b
    }
}

/// Equality of two byte slices.
pub fn bytes_eq(a: &[u8], b: &[u8]) -> (r: bool)
    ensures
        r == (a@ == b@),
{
    if a.len() != b.len() {
        return false;
    }
    let mut i: usize = 0;
    while i < a.len()
        invariant
            a@.len() == b@.len(),
            i <= a@.len(),
            forall|j: int| 0 <= j < i ==> a@[j] == b@[j],
        decreases a@.len() - i,
    {
        if a[i] != b[i] {
            return false;
        }
        i = i + 1;
    }
    assert(a@ =~= b@);
    true
}

pub open spec fn is_digit(x: u8) -> bool {
    48u8 <= x <= 57u8
}

/// The members of the POSIX character class called `name`, or `None` for an unknown name.
pub open spec fn posix_spec(name: Seq<u8>) -> Option<spec_fn(u8) -> bool> {
    if name == seq![97u8, 108u8, 110u8, 117u8, 109u8] {
        // alnum
        Some(|x: u8| is_digit(x) || is_upper(x) || is_lower(x))
    } else if name == seq![97u8, 108u8, 112u8, 104u8, 97u8] {
        // alpha
        Some(|x: u8| is_upper(x) || is_lower(x))
    } else if name == seq![97u8, 115u8, 99u8, 105u8, 105u8] {
        // ascii
        Some(|x: u8| x <= 127u8)
    } else if name == seq![98u8, 108u8, 97u8, 110u8, 107u8] {
        // blank
        Some(|x: u8| x == 32u8 || x == 9u8)
    } else if name == seq![99u8, 110u8, 116u8, 114u8, 108u8] {
        // cntrl
        Some(|x: u8| x <= 31u8 || x == 127u8)
    } else if name == seq![100u8, 105u8, 103u8, 105u8, 116u8] {
        // digit
        Some(|x: u8| is_digit(x))
    } else if name == seq![103u8, 114u8, 97u8, 112u8, 104u8] {
        // graph
        Some(|x: u8| 33u8 <= x <= 126u8)
    } else if name == seq![108u8, 111u8, 119u8, 101u8, 114u8] {
        // lower
        Some(|x: u8| is_lower(x))
    } else if name == seq![112u8, 114u8, 105u8, 110u8, 116u8] {
        // print
        Some(|x: u8| 32u8 <= x <= 126u8)
    } else if name == seq![112u8, 117u8, 110u8, 99u8, 116u8] {
        // punct
        Some(
            |x: u8|
                (33u8 <= x <= 47u8) || (58u8 <= x <= 64u8) || (91u8 <= x <= 96u8) || (123u8 <= x
                    <= 126u8),
        )
    } else if name == seq![115u8, 112u8, 97u8, 99u8, 101u8] {
        // space
        Some(|x: u8| (9u8 <= x <= 13u8) || x == 32u8)
    } else if name == seq![117u8, 112u8, 112u8, 101u8, 114u8] {
        // upper
        Some(|x: u8| is_upper(x))
    } else if name == seq![119u8, 111u8, 114u8, 100u8] {
        // word
        Some(|x: u8| is_digit(x) || is_upper(x) || is_lower(x) || x == 95u8)
    } else if name == seq![120u8, 100u8, 105u8, 103u8, 105u8, 116u8] {
        // xdigit
        Some(|x: u8| is_digit(x) || (65u8 <= x <= 70u8) || (97u8 <= x <= 102u8))
    } else {
        None
    }
}

/// The POSIX character class called `name` (as in `[[:alpha:]]`), or `None` for an unknown name.
pub fn posix_class(name: &[u8]) -> (r: Option<ByteClass>)
    ensures
        r is Some == posix_spec(name@) is Some,
        r matches Some(c) ==> forall|x: u8| #[trigger] c.has(x) == (posix_spec(name@)->0)(x),
{
    let mut cls = ByteClass::empty();
    if bytes_eq(name, &[97u8, 108u8, 110u8, 117u8, 109u8]) {
        cls.add_range(48, 57);
        cls.add_range(65, 90);
        cls.add_range(97, 122);
    } else if bytes_eq(name, &[97u8, 108u8, 112u8, 104u8, 97u8]) {
        cls.add_range(65, 90);
        cls.add_range(97, 122);
    } else if bytes_eq(name, &[97u8, 115u8, 99u8, 105u8, 105u8]) {
        cls.add_range(0, 127);
    } else if bytes_eq(name, &[98u8, 108u8, 97u8, 110u8, 107u8]) {
        cls.set(32);
        cls.set(9);
    } else if bytes_eq(name, &[99u8, 110u8, 116u8, 114u8, 108u8]) {
        cls.add_range(0, 31);
        cls.set(127);
    } else if bytes_eq(name, &[100u8, 105u8, 103u8, 105u8, 116u8]) {
        cls.add_range(48, 57);
    } else if bytes_eq(name, &[103u8, 114u8, 97u8, 112u8, 104u8]) {
        cls.add_range(33, 126);
    } else if bytes_eq(name, &[108u8, 111u8, 119u8, 101u8, 114u8]) {
        cls.add_range(97, 122);
    } else if bytes_eq(name, &[112u8, 114u8, 105u8, 110u8, 116u8]) {
        cls.add_range(32, 126);
    } else if bytes_eq(name, &[112u8, 117u8, 110u8, 99u8, 116u8]) {
        cls.add_range(33, 47);
        cls.add_range(58, 64);
        cls.add_range(91, 96);
        cls.add_range(123, 126);
    } else if bytes_eq(name, &[115u8, 112u8, 97u8, 99u8, 101u8]) {
        cls.add_range(9, 13);
        cls.set(32);
    } else if bytes_eq(name, &[117u8, 112u8, 112u8, 101u8, 114u8]) {
        cls.add_range(65, 90);
    } else if bytes_eq(name, &[119u8, 111u8, 114u8, 100u8]) {
        cls.add_range(48, 57);
        cls.add_range(65, 90);
        cls.add_range(97, 122);
        cls.set(95);
    } else if bytes_eq(name, &[120u8, 100u8, 105u8, 103u8, 105u8, 116u8]) {
        cls.add_range(48, 57);
        cls.add_range(65, 70);
        cls.add_range(97, 102);
    } else {
        return None;
    }
    Some(cls)
}

/// The little-endian value of the bytes `b`.
pub open spec fn pack_spec(b: Seq<u8>) -> int
    decreases b.len(),
{
    if b.len() == 0 {
        0
    } else {
        b[0] + 256 * pack_spec(b.subrange(1, b.len() as int))
    }
}

pub open spec fn pow256(k: nat) -> int
    decreases k,
{
    if k == 0 {
        1
    } else {
        256 * pow256((k - 1) as nat)
    }
}

pub proof fn lemma_pow256_mono(k: nat, j: nat)
    requires
        k <= j,
    ensures
        1 <= pow256(k) <= pow256(j),
    decreases j,
{
    if j > 0 {
        if k < j {
            lemma_pow256_mono(k, (j - 1) as nat);
        } else {
            lemma_pow256_mono((k - 1) as nat, (j - 1) as nat);
        }
    }
}

pub proof fn lemma_pack_bound(b: Seq<u8>)
    ensures
        0 <= pack_spec(b) < pow256(b.len()),
    decreases b.len(),
{
    if b.len() > 0 {
        let rest = b.subrange(1, b.len() as int);
        lemma_pack_bound(rest);
        assert(pow256(b.len()) == 256 * pow256(rest.len()));
        let r = pack_spec(rest);
        let x = b[0] as int;
        assert(x + 256 * r < 256 * pow256(rest.len())) by (nonlinear_arith)
            requires
                0 <= x < 256,
                0 <= r < pow256(rest.len()),
        ;
    }
}

/// Equal packings of byte strings of one length are of equal strings.
pub proof fn lemma_pack_injective(a: Seq<u8>, b: Seq<u8>)
    requires
        a.len() == b.len(),
        pack_spec(a) == pack_spec(b),
    ensures
        a == b,
    decreases a.len(),
{
    if a.len() > 0 {
        let ra = a.subrange(1, a.len() as int);
        let rb = b.subrange(1, b.len() as int);
        lemma_pack_bound(ra);
        lemma_pack_bound(rb);
        let x = a[0] as int;
        let y = b[0] as int;
        let p = pack_spec(ra);
        let q = pack_spec(rb);
        assert(x == y && p == q) by (nonlinear_arith)
            requires
                0 <= x < 256,
                0 <= y < 256,
                0 <= p,
                0 <= q,
                x + 256 * p == y + 256 * q,
        ;
        lemma_pack_injective(ra, rb);
        assert(a =~= b) by {
            assert forall|i: int| 0 <= i < a.len() implies a[i] == b[i] by {
                if i > 0 {
                    assert(a[i] == ra[i - 1]);
                    assert(b[i] == rb[i - 1]);
                }
            }
        }
    } else {
        assert(a =~= b);
    }
}

/// Packs up to eight bytes little-endian into a word.
pub fn pack_le(b: &[u8]) -> (r: u64)
    requires
        b@.len() <= 8,
    ensures
        r as int == pack_spec(b@),
{
    let n = b.len();
    let mut v: u64 = 0;
    let mut i = n;
    assert(b@.subrange(n as int, n as int).len() == 0);
    while i > 0
        invariant
            n == b@.len() <= 8,
            i <= n,
            v as int == pack_spec(b@.subrange(i as int, n as int)),
            0 <= v < pow256((n - i) as nat),
        decreases i,
    {
        let ghost k = (n - i) as nat;
        assert(pow256(k + 1) == 256 * pow256(k));
        assert(k <= 7);
        proof {
            lemma_pow256_mono(k, 7nat);
        }
        assert(pow256(7) == 0x100_0000_0000_0000) by {
            reveal_with_fuel(pow256, 8);
        }
        assert(v * 256 + 255 < 0x1_0000_0000_0000_0000) by (nonlinear_arith)
            requires
                v < 0x100_0000_0000_0000,
        ;
        assert(v * 256 + 255 < 256 * pow256(k)) by (nonlinear_arith)
            requires
                v + 1 <= pow256(k),
        ;
        let x = b[i - 1] as u64;
        v = x + v * 256;
        i = i - 1;
        assert(b@.subrange(i as int, n as int).subrange(1, (n - i) as int) =~= b@.subrange(
            i + 1,
            n as int,
        ));
    }
    assert(b@.subrange(0, n as int) =~= b@);
    v
}

/// Marks the unlikely branch of a hot path; does nothing.
pub fn cold_path() {
}

} // verus!
