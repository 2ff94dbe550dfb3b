//! Table-driven CRC-32 engine (reflected polynomial 0xEDB88320), as used by
//! the chunk codec to checksum each chunk's tag and payload.

use vstd::prelude::*;

verus! {

/// One shift-and-conditionally-xor round of the reflected CRC-32 polynomial.
pub open spec fn crc_step(c: u32) -> u32 {
    if c & 1 == 1 {
        0xedb88320u32 ^ (c >> 1)
    } else {
        c >> 1
    }
}

/// Eight polynomial rounds: how one whole byte is folded into the register.
pub open spec fn crc_steps8(c: u32) -> u32 {
    crc_step(crc_step(crc_step(crc_step(crc_step(crc_step(crc_step(crc_step(c))))))))
}

/// The CRC register after absorbing byte `b` into state `c`.
pub open spec fn crc_update_byte(c: u32, b: u8) -> u32 {
    crc_steps8(c ^ (b as u32))
}

/// The CRC register after absorbing every byte of `s` into state `c`.
pub open spec fn crc_fold(c: u32, s: Seq<u8>) -> u32
    decreases s.len(),
{
    if s.len() == 0 {
        c
    } else {
        crc_fold(crc_update_byte(c, s[0]), s.skip(1))
    }
}

/// Standard CRC-32 of a byte sequence: all-ones seed, complemented output.
pub open spec fn crc32_of(s: Seq<u8>) -> u32 {
    crc_fold(0xffffffffu32, s) ^ 0xffffffffu32
}

/// Folding one more byte at the end equals one register update on the fold so far.
pub proof fn lemma_crc_fold_snoc(c: u32, s: Seq<u8>, b: u8)
    ensures
        crc_fold(c, s.push(b)) == crc_update_byte(crc_fold(c, s), b),
    decreases s.len(),
{
    if s.len() == 0 {
        assert(s.push(b).skip(1) =~= Seq::<u8>::empty());
        assert(s.push(b)[0] == b);
        assert(crc_fold(c, s.push(b)) == crc_fold(crc_update_byte(c, b), s.push(b).skip(1)));
        assert(crc_fold(c, s) == c);
    } else {
        assert(s.push(b).skip(1) =~= s.skip(1).push(b));
        assert(s.push(b)[0] == s[0]);
        assert(crc_fold(c, s.push(b)) == crc_fold(crc_update_byte(c, s[0]), s.skip(1).push(b)));
        lemma_crc_fold_snoc(crc_update_byte(c, s[0]), s.skip(1), b);
        assert(crc_fold(c, s) == crc_fold(crc_update_byte(c, s[0]), s.skip(1)));
    }
}

/// A byte's contribution splits into a table lookup on the low register byte
/// plus a shift of the high bytes: the identity behind the table-driven form.
proof fn lemma_crc_table_lookup(x: u32)
    ensures
        crc_steps8(x) == crc_steps8(x & 0xff) ^ (x >> 8),
{
    assert(crc_steps8(x) == crc_steps8(x & 0xff) ^ (x >> 8)) by (bit_vector);
}

proof fn lemma_crc_steps8_injective(c1: u32, c2: u32)
    requires
        crc_steps8(c1) == crc_steps8(c2),
    ensures
        c1 == c2,
{
    assert(crc_steps8(c1) == crc_steps8(c2) ==> c1 == c2) by (bit_vector);
}

proof fn lemma_crc_update_inj_state(c1: u32, c2: u32, b: u8)
    requires
        crc_update_byte(c1, b) == crc_update_byte(c2, b),
    ensures
        c1 == c2,
{
    lemma_crc_steps8_injective(c1 ^ (b as u32), c2 ^ (b as u32));
    assert(c1 ^ (b as u32) == c2 ^ (b as u32) ==> c1 == c2) by (bit_vector);
}

proof fn lemma_crc_update_inj_byte(c: u32, b1: u8, b2: u8)
    requires
        b1 != b2,
    ensures
        crc_update_byte(c, b1) != crc_update_byte(c, b2),
{
    if crc_update_byte(c, b1) == crc_update_byte(c, b2) {
        lemma_crc_steps8_injective(c ^ (b1 as u32), c ^ (b2 as u32));
        assert(c ^ (b1 as u32) == c ^ (b2 as u32) ==> b1 == b2) by (bit_vector);
    }
}

proof fn lemma_crc_fold_inj_state(c1: u32, c2: u32, s: Seq<u8>)
    requires
        c1 != c2,
    ensures
        crc_fold(c1, s) != crc_fold(c2, s),
    decreases s.len(),
{
    if s.len() == 0 {
    } else {
        if crc_update_byte(c1, s[0]) == crc_update_byte(c2, s[0]) {
            lemma_crc_update_inj_state(c1, c2, s[0]);
        }
        lemma_crc_fold_inj_state(crc_update_byte(c1, s[0]), crc_update_byte(c2, s[0]), s.skip(1));
    }
}

proof fn lemma_crc_fold_single_diff(c: u32, s1: Seq<u8>, s2: Seq<u8>, d: int)
    requires
        s1.len() == s2.len(),
        0 <= d < s1.len(),
        s1[d] != s2[d],
        forall|i: int| 0 <= i < s1.len() && i != d ==> s1[i] == s2[i],
    ensures
        crc_fold(c, s1) != crc_fold(c, s2),
    decreases d,
{
    if d == 0 {
        lemma_crc_update_inj_byte(c, s1[0], s2[0]);
        assert(s1.skip(1) =~= s2.skip(1));
        lemma_crc_fold_inj_state(
            crc_update_byte(c, s1[0]),
            crc_update_byte(c, s2[0]),
            s1.skip(1),
        );
    } else {
        assert(s1[0] == s2[0]);
        assert(s1.skip(1)[d - 1] != s2.skip(1)[d - 1]) by {
            assert(s1.skip(1)[d - 1] == s1[d]);
            assert(s2.skip(1)[d - 1] == s2[d]);
        }
        assert forall|i: int| 0 <= i < s1.skip(1).len() && i != d - 1 implies s1.skip(1)[i]
            == s2.skip(1)[i] by {
            assert(s1.skip(1)[i] == s1[i + 1]);
            assert(s2.skip(1)[i] == s2[i + 1]);
        }
        lemma_crc_fold_single_diff(crc_update_byte(c, s1[0]), s1.skip(1), s2.skip(1), d - 1);
    }
}

/// Error detection: two byte sequences of the same length that differ in
/// exactly one position never share a CRC-32.
pub proof fn lemma_crc32_single_diff(s1: Seq<u8>, s2: Seq<u8>, d: int)
    requires
        s1.len() == s2.len(),
        0 <= d < s1.len(),
        s1[d] != s2[d],
        forall|i: int| 0 <= i < s1.len() && i != d ==> s1[i] == s2[i],
    ensures
        crc32_of(s1) != crc32_of(s2),
{
    lemma_crc_fold_single_diff(0xffffffffu32, s1, s2, d);
    let a = crc_fold(0xffffffffu32, s1);
    let b = crc_fold(0xffffffffu32, s2);
    assert(a != b ==> a ^ 0xffffffffu32 != b ^ 0xffffffffu32) by (bit_vector);
}

/// Error detection: flipping any single bit of the input changes its CRC-32.
pub proof fn lemma_crc32_detects_bit_flip(s: Seq<u8>, d: int, k: u32)
    requires
        0 <= d < s.len(),
        k < 8,
    ensures
        crc32_of(s.update(d, s[d] ^ (1u8 << k))) != crc32_of(s),
{
    let b = s[d];
    assert((b ^ (1u8 << k)) != b) by (bit_vector)
        requires
            k < 8,
    ;
    lemma_crc32_single_diff(s.update(d, s[d] ^ (1u8 << k)), s, d);
}

pub struct CRC {
    crc_table: Vec<u32>,
}

impl CRC {
    /// The table holds the eight-round fold of every possible low byte.
    pub closed spec fn wf(&self) -> bool {
        &&& self.crc_table@.len() == 256
        &&& forall|i: int| 0 <= i < 256 ==> self.crc_table@[i] == crc_steps8(i as u32)
    }

    /// One exec polynomial round, mirroring `crc_step`.
    fn step(c: u32) -> (r: u32)
        ensures
            r == crc_step(c),
    {
        if c & 1 == 1 {
            0xedb88320u32 ^ (c >> 1)
        } else {
            c >> 1
        }
    }

    pub fn make_crc_table() -> (r: Vec<u32>)
        ensures
            r@.len() == 256,
            forall|i: int| 0 <= i < 256 ==> r@[i] == crc_steps8(i as u32),
    {
        let mut result: Vec<u32> = Vec::new();
        let mut n: u32 = 0;
        while n < 256
            invariant
                n <= 256,
                result@.len() == n,
                forall|j: int| 0 <= j < n ==> result@[j] == crc_steps8(j as u32),
            decreases 256 - n,
        {
            let mut c: u32 = n;
            c = Self::step(c);
            c = Self::step(c);
            c = Self::step(c);
            c = Self::step(c);
            c = Self::step(c);
            c = Self::step(c);
            c = Self::step(c);
            c = Self::step(c);
            result.push(c);
            n = n + 1;
        }
        result
    }

    pub fn new() -> (r: CRC)
        ensures
            r.wf(),
    {
        CRC { crc_table: Self::make_crc_table() }
    }

    /// Folds every byte of `buf` into the register `crc`.
    pub fn update_crc(&self, crc: u32, buf: &Vec<u8>) -> (r: u32)
        requires
            self.wf(),
        ensures
            r == crc_fold(crc, buf@),
    {
        let mut c: u32 = crc;
        let mut n: usize = 0;
        while n < buf.len()
            invariant
                self.wf(),
                n <= buf@.len(),
                c == crc_fold(crc, buf@.take(n as int)),
            decreases buf@.len() - n,
        {
            let b: u8 = buf[n];
            let k: u32 = (c ^ (b as u32)) & 0xff;
            proof {
                assert((c ^ (b as u32)) & 0xff < 256) by (bit_vector);
            }
            let next: u32 = self.crc_table[k as usize] ^ (c >> 8);
            proof {
                let x = c ^ (b as u32);
                lemma_crc_table_lookup(x);
                assert(x & 0xff == k && x >> 8 == c >> 8) by (bit_vector)
                    requires
                        k == (c ^ (b as u32)) & 0xff,
                        x == c ^ (b as u32),
                        b <= 0xff,
                ;
                assert(next == crc_update_byte(c, b));
                assert(buf@.take(n as int).push(buf@[n as int]) =~= buf@.take(n + 1));
                lemma_crc_fold_snoc(crc, buf@.take(n as int), buf@[n as int]);
            }
            c = next;
            n = n + 1;
        }
        assert(buf@.take(buf@.len() as int) =~= buf@);
        c
    }

    /// Standard CRC-32 of `data`.
    pub fn crc(&self, data: &Vec<u8>) -> (r: u32)
        requires
            self.wf(),
        ensures
            r == crc32_of(data@),
    {
        self.update_crc(0xffffffffu32, data) ^ 0xffffffffu32
    }
}

} // verus!
