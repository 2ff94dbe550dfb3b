//! Canonical URI derivation for source paths: percent-encoding of path
//! bytes, basename extraction, and the MD5/hex digest of the URI.

use vstd::prelude::*;
use crate::util::copy_range;

verus! {

/// Bytes the URI encoder passes through unescaped: ASCII alphanumerics, the
/// unreserved marks `-._~`, the sub-delimiters, `:`, `@`, and the path
/// separator `/` itself.
pub open spec fn is_uri_allowed(b: u8) -> bool {
    ||| 48 <= b <= 57  // 0-9
    ||| 65 <= b <= 90  // A-Z
    ||| 97 <= b <= 122  // a-z
    ||| b == 45 || b == 46 || b == 95 || b == 126  // - . _ ~
    ||| b == 33 || b == 36 || b == 38 || b == 39 || b == 40  // ! $ & ' (
    ||| b == 41 || b == 42 || b == 43 || b == 44 || b == 59 || b == 61  // ) * + , ; =
    ||| b == 58 || b == 64  // : @
    ||| b == 47  // /
}

/// Uppercase hex digit of a nibble.
pub open spec fn hex_upper_digit(n: u8) -> u8 {
    if n < 10 {
        (48 + n) as u8
    } else {
        (55 + n) as u8
    }
}

/// One byte's percent-encoding: itself when allowed, else `%` and two
/// uppercase hex digits.
pub open spec fn pct_encode_byte(b: u8) -> Seq<u8> {
    if is_uri_allowed(b) {
        seq![b]
    } else {
        seq![37u8, hex_upper_digit(b / 16), hex_upper_digit(b % 16)]
    }
}

/// Percent-encoding of a byte sequence, byte by byte.
pub open spec fn pct_encode(s: Seq<u8>) -> Seq<u8>
    decreases s.len(),
{
    if s.len() == 0 {
        Seq::empty()
    } else {
        pct_encode_byte(s[0]) + pct_encode(s.skip(1))
    }
}

proof fn lemma_pct_encode_snoc(s: Seq<u8>, b: u8)
    ensures
        pct_encode(s.push(b)) == pct_encode(s) + pct_encode_byte(b),
    decreases s.len(),
{
    if s.len() == 0 {
        assert(s.push(b)[0] == b);
        assert(s.push(b).skip(1) =~= Seq::<u8>::empty());
        assert(pct_encode(Seq::<u8>::empty()) == Seq::<u8>::empty());
        assert(pct_encode(s) == Seq::<u8>::empty());
        assert(pct_encode(s.push(b)) =~= pct_encode(s) + pct_encode_byte(b));
    } else {
        assert(s.push(b)[0] == s[0]);
        assert(s.push(b).skip(1) =~= s.skip(1).push(b));
        lemma_pct_encode_snoc(s.skip(1), b);
        assert(pct_encode(s.push(b)) =~= pct_encode(s) + pct_encode_byte(b));
    }
}

/// Whether `b` is in the unescaped alphabet.
fn is_allowed_byte(b: u8) -> (r: bool)
    ensures
        r == is_uri_allowed(b),
{
    (48 <= b && b <= 57) || (65 <= b && b <= 90) || (97 <= b && b <= 122) || b == 45 || b == 46
        || b == 95 || b == 126 || b == 33 || b == 36 || b == 38 || b == 39 || b == 40 || b == 41
        || b == 42 || b == 43 || b == 44 || b == 59 || b == 61 || b == 58 || b == 64 || b == 47
}

/// Percent-encodes every byte of `s`.
pub(crate) fn percent_encode(s: &Vec<u8>) -> (r: Vec<u8>)
    ensures
        r@ == pct_encode(s@),
{
    let mut r: Vec<u8> = Vec::new();
    let mut i: usize = 0;
    assert(pct_encode(s@.take(0)) =~= Seq::<u8>::empty());
    while i < s.len()
        invariant
            i <= s@.len(),
            r@ == pct_encode(s@.take(i as int)),
        decreases s@.len() - i,
    {
        let ghost r0 = r@;
        let b: u8 = s[i];
        if is_allowed_byte(b) {
            r.push(b);
            assert(r@ =~= r0 + pct_encode_byte(b));
        } else {
            r.push(37);
            let hi: u8 = b / 16;
            let lo: u8 = b % 16;
            if hi < 10 {
                r.push(48 + hi);
            } else {
                r.push(55 + hi);
            }
            if lo < 10 {
                r.push(48 + lo);
            } else {
                r.push(55 + lo);
            }
            assert(r@ =~= r0 + pct_encode_byte(b));
        }
        proof {
            lemma_pct_encode_snoc(s@.take(i as int), b);
            assert(s@.take(i as int).push(s@[i as int]) =~= s@.take(i + 1));
        }
        i = i + 1;
    }
    assert(s@.take(s@.len() as int) =~= s@);
    r
}

/// The suffix of `p` after its last `/`; `p` itself when it has none.
pub open spec fn basename_of(p: Seq<u8>) -> Seq<u8>
    decreases p.len(),
{
    if p.len() == 0 {
        Seq::empty()
    } else if p[0] == 47 || p.contains(47u8) {
        basename_of(p.skip(1))
    } else {
        p
    }
}

proof fn lemma_basename_after(p: Seq<u8>, j: int)
    requires
        0 <= j < p.len(),
        p[j] == 47u8,
        forall|i: int| j < i < p.len() ==> p[i] != 47u8,
    ensures
        basename_of(p) == p.skip(j + 1),
    decreases p.len(),
{
    if j == 0 {
        let t = p.skip(1);
        assert(basename_of(p) == basename_of(t));
        if t.len() == 0 {
            assert(basename_of(t) =~= t);
        } else {
            assert(!t.contains(47u8)) by {
                if t.contains(47u8) {
                    let i = choose|i: int| 0 <= i < t.len() && t[i] == 47u8;
                    assert(p[i + 1] == 47u8);
                }
            }
            assert(t[0] != 47u8);
            assert(basename_of(t) == t);
        }
    } else {
        assert(p.contains(47u8)) by {
            assert(p[j] == 47u8);
        }
        assert(basename_of(p) == basename_of(p.skip(1)));
        assert(p.skip(1)[j - 1] == p[j]);
        assert forall|i: int| j - 1 < i < p.skip(1).len() implies p.skip(1)[i] != 47u8 by {
            assert(p.skip(1)[i] == p[i + 1]);
        }
        lemma_basename_after(p.skip(1), j - 1);
        assert(p.skip(1).skip(j) =~= p.skip(j + 1));
    }
}

/// Extracts the bytes after the last `/` of an absolute path.
pub(crate) fn basename(path: &Vec<u8>) -> (r: Vec<u8>)
    requires
        path@.len() >= 1,
        path@[0] == 47u8,
    ensures
        r@ == basename_of(path@),
{
    let mut j: usize = path.len() - 1;
    while path[j] != 47
        invariant
            0 <= j < path@.len(),
            path@[0] == 47u8,
            forall|i: int| j < i < path@.len() ==> path@[i] != 47u8,
        decreases j,
    {
        j = j - 1;
    }
    proof {
        lemma_basename_after(path@, j as int);
    }
    copy_range(path, j + 1, path.len() - j - 1)
}

/// A canonical absolute path as the filesystem hands it back: it starts at
/// the root, holds no empty segment, and does not end in a separator.
pub open spec fn canonical_path(p: Seq<u8>) -> bool {
    &&& p.len() >= 1
    &&& p[0] == 47u8
    &&& forall|i: int| 1 <= i < p.len() && p[i - 1] == 47u8 ==> (#[trigger] p[i]) != 47u8
    &&& p.len() > 1 ==> p[p.len() - 1] != 47u8
}

/// A canonical absolute path that names something below the root.
pub open spec fn valid_source_path(p: Seq<u8>) -> bool {
    &&& canonical_path(p)
    &&& p.len() >= 2
}

/// The scheme prefix "file://".
pub open spec fn file_prefix() -> Seq<u8> {
    seq![102u8, 105u8, 108u8, 101u8, 58u8, 47u8, 47u8]
}

/// The URI a path derives under each mode: the percent-encoded full path
/// behind "file://", or the percent-encoded basename alone.
pub open spec fn uri_of(p: Seq<u8>, use_full_path: bool) -> Seq<u8> {
    if use_full_path {
        file_prefix() + pct_encode(p)
    } else {
        pct_encode(basename_of(p))
    }
}

/// What `md5::compute` returns on the given bytes.
pub uninterp spec fn md5_of(bytes: Seq<u8>) -> Seq<u8>;

/// Relies on md5::compute: the 16-byte MD5 digest, a function of the input
/// bytes alone.
#[verifier::external_body]
pub(crate) fn md5_digest(bytes: &Vec<u8>) -> (r: Vec<u8>)
    ensures
        r@ == md5_of(bytes@),
        r@.len() == 16,
{
    md5::compute(bytes.as_slice()).0.to_vec()
}

/// Lowercase hex digit of a nibble.
pub open spec fn hex_lower_digit(n: u8) -> u8 {
    if n < 10 {
        (48 + n) as u8
    } else {
        (87 + n) as u8
    }
}

/// Two lowercase hex digits per byte, high nibble first.
pub open spec fn hex_lower_of(s: Seq<u8>) -> Seq<u8>
    decreases s.len(),
{
    if s.len() == 0 {
        Seq::empty()
    } else {
        seq![hex_lower_digit(s[0] / 16), hex_lower_digit(s[0] % 16)] + hex_lower_of(s.skip(1))
    }
}

/// Relies on hex::encode: each byte becomes two lowercase hex digits, high
/// nibble first.
#[verifier::external_body]
pub(crate) fn hex_encode(bytes: &Vec<u8>) -> (r: Vec<u8>)
    ensures
        r@ == hex_lower_of(bytes@),
{
    hex::encode(bytes.as_slice()).into_bytes()
}

/// The lowercase hex MD5 digest of the URI a path derives under a mode.
pub open spec fn digest_hex_of(p: Seq<u8>, use_full_path: bool) -> Seq<u8> {
    hex_lower_of(md5_of(uri_of(p, use_full_path)))
}

proof fn lemma_concat_not_contains(a: Seq<u8>, b: Seq<u8>, x: u8)
    requires
        !a.contains(x),
        !b.contains(x),
    ensures
        !(a + b).contains(x),
{
    if (a + b).contains(x) {
        let i = choose|i: int| 0 <= i < (a + b).len() && (a + b)[i] == x;
        if i < a.len() {
            assert(a[i] == x);
        } else {
            assert(b[i - a.len()] == x);
        }
    }
}

/// Percent-encoding introduces no separator: escapes are made of `%` and hex
/// digits only, and pass-through bytes come from the input.
proof fn lemma_pct_no_slash(s: Seq<u8>)
    requires
        !s.contains(47u8),
    ensures
        !pct_encode(s).contains(47u8),
    decreases s.len(),
{
    if s.len() == 0 {
    } else {
        assert(s[0] != 47u8);
        assert(!pct_encode_byte(s[0]).contains(47u8)) by {
            if pct_encode_byte(s[0]).contains(47u8) {
                let i = choose|i: int|
                    0 <= i < pct_encode_byte(s[0]).len() && pct_encode_byte(s[0])[i] == 47u8;
            }
        }
        assert(!s.skip(1).contains(47u8)) by {
            if s.skip(1).contains(47u8) {
                let i = choose|i: int| 0 <= i < s.skip(1).len() && s.skip(1)[i] == 47u8;
                assert(s[i + 1] == 47u8);
            }
        }
        lemma_pct_no_slash(s.skip(1));
        lemma_concat_not_contains(pct_encode_byte(s[0]), pct_encode(s.skip(1)), 47u8);
    }
}

/// A basename holds no separator.
proof fn lemma_basename_no_slash(p: Seq<u8>)
    ensures
        !basename_of(p).contains(47u8),
    decreases p.len(),
{
    if p.len() == 0 {
        if basename_of(p).contains(47u8) {
            let i = choose|i: int| 0 <= i < basename_of(p).len() && basename_of(p)[i] == 47u8;
        }
    } else if p[0] == 47 || p.contains(47u8) {
        lemma_basename_no_slash(p.skip(1));
    } else {
    }
}

/// The two derivation modes never agree: the full-path URI carries the
/// separator of its "file://" prefix, while a basename URI contains none.
pub proof fn lemma_uri_modes_differ(p: Seq<u8>)
    requires
        valid_source_path(p),
    ensures
        uri_of(p, true) != uri_of(p, false),
{
    let full = uri_of(p, true);
    let base = uri_of(p, false);
    assert(full[5] == 47u8);
    lemma_basename_no_slash(p);
    lemma_pct_no_slash(basename_of(p));
    if full == base {
        assert(base[5] == 47u8);
        assert(base.contains(47u8));
    }
}

} // verus!
