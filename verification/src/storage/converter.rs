//! Short keys for URLs: the first six bytes of the BLAKE3 hash of the URL's
//! UTF-8 bytes, in URL-safe Base64 without padding.

use vstd::prelude::*;
use vstd::utf8::encode_utf8;
use base64ct::Encoding;
use crate::text::is_white_space;

verus! {

/// What `blake3::hash` gives for `data`: its 32-byte BLAKE3 hash.
pub uninterp spec fn blake3_digest(data: Seq<u8>) -> Seq<u8>;

/// Calls `blake3::hash` on `data` and returns the bytes of the hash.  The
/// result is named `blake3_digest` of the data; the only other claim is its
/// length, 32 bytes, as the crate documents.  The hash function is not written out.
#[verifier::external_body]
fn blake3_hash(data: &[u8]) -> (r: Vec<u8>)
    ensures
        r@ == blake3_digest(data@),
        r@.len() == 32,
{
    blake3::hash(data).as_bytes().to_vec()
}

/// The character of the URL-safe Base64 alphabet for the value `v` (0 to 63):
/// `A`-`Z`, `a`-`z`, `0`-`9`, `-`, `_`.
pub open spec fn base64url_char(v: int) -> char {
    if v < 26 {
        (65 + v) as char
    } else if v < 52 {
        (97 + v - 26) as char
    } else if v < 62 {
        (48 + v - 52) as char
    } else if v == 62 {
        '-'
    } else {
        '_'
    }
}

/// URL-safe Base64 of `b` without padding (RFC 4648, section 5): each group of
/// three bytes gives four characters of six bits each, most significant first;
/// a last group of one or two bytes gives two or three characters, the missing
/// low bits taken as zero.
pub open spec fn base64url(b: Seq<u8>) -> Seq<char>
    decreases b.len(),
{
    if b.len() == 0 {
        Seq::empty()
    } else {
        let b0 = b[0] as int;
        if b.len() == 1 {
            seq![base64url_char(b0 / 4), base64url_char((b0 % 4) * 16)]
        } else {
            let b1 = b[1] as int;
            if b.len() == 2 {
                seq![
                    base64url_char(b0 / 4),
                    base64url_char((b0 % 4) * 16 + b1 / 16),
                    base64url_char((b1 % 16) * 4),
                ]
            } else {
                let b2 = b[2] as int;
                seq![
                    base64url_char(b0 / 4),
                    base64url_char((b0 % 4) * 16 + b1 / 16),
                    base64url_char((b1 % 16) * 4 + b2 / 64),
                    base64url_char(b2 % 64),
                ] + base64url(b.subrange(3, b.len() as int))
            }
        }
    }
}

/// Calls `Base64UrlUnpadded::encode_string` of `base64ct` on `bytes`: their
/// URL-safe Base64 text without padding.  The crate panics when four times the
/// length overflows `usize`, which `requires` leaves out.
#[verifier::external_body]
fn base64url_encode(bytes: &[u8]) -> (r: String)
    requires
        bytes@.len() <= usize::MAX / 4,
    ensures
        r@ == base64url(bytes@),
{
    base64ct::Base64UrlUnpadded::encode_string(bytes)
}

/// The short key of `url`.
pub open spec fn short_key(url: Seq<char>) -> Seq<char> {
    base64url(blake3_digest(encode_utf8(url)).take(6))
}

/// Whether `k` has the shape of a short key: eight ASCII characters, none of
/// them white space.
pub open spec fn is_short_key(k: Seq<char>) -> bool {
    &&& k.len() == 8
    &&& forall|i: int|
        0 <= i < k.len() ==> !is_white_space(#[trigger] k[i]) && (k[i] as u32) < 128
}

proof fn lemma_base64url_char(v: int)
    requires
        0 <= v < 64,
    ensures
        !is_white_space(base64url_char(v)),
        (base64url_char(v) as u32) < 128,
{
}

/// Six bytes in URL-safe Base64 are eight characters of its alphabet.
proof fn lemma_base64url_six(b: Seq<u8>)
    requires
        b.len() == 6,
    ensures
        is_short_key(base64url(b)),
{
    let rest = b.subrange(3, 6);
    assert(rest.subrange(3, 3) =~= Seq::<u8>::empty());
    assert(base64url(rest.subrange(3, 3)) == Seq::<char>::empty());
    let (b0, b1, b2) = (b[0] as int, b[1] as int, b[2] as int);
    let (c0, c1, c2) = (rest[0] as int, rest[1] as int, rest[2] as int);
    lemma_base64url_char(b0 / 4);
    lemma_base64url_char((b0 % 4) * 16 + b1 / 16);
    lemma_base64url_char((b1 % 16) * 4 + b2 / 64);
    lemma_base64url_char(b2 % 64);
    lemma_base64url_char(c0 / 4);
    lemma_base64url_char((c0 % 4) * 16 + c1 / 16);
    lemma_base64url_char((c1 % 16) * 4 + c2 / 64);
    lemma_base64url_char(c2 % 64);
    let k = base64url(b);
    assert(b.subrange(3, b.len() as int) == rest);
    assert(base64url(rest).len() == 4);
    assert(k.len() == 8);
    assert forall|i: int| 0 <= i < k.len() implies !is_white_space(#[trigger] k[i]) && (k[i] as u32)
        < 128 by {
        if i >= 4 {
            assert(k[i] == base64url(rest)[i - 4]);
        }
    }
}

proof fn lemma_base64url_char_injective(v: int, w: int)
    requires
        0 <= v < 64,
        0 <= w < 64,
        base64url_char(v) == base64url_char(w),
    ensures
        v == w,
{
    assert(base64url_char(v) as u32 == base64url_char(w) as u32);
}

proof fn lemma_group_injective(b0: u8, b1: u8, b2: u8, c0: u8, c1: u8, c2: u8)
    requires
        b0 / 4 == c0 / 4,
        (b0 % 4) * 16 + b1 / 16 == (c0 % 4) * 16 + c1 / 16,
        (b1 % 16) * 4 + b2 / 64 == (c1 % 16) * 4 + c2 / 64,
        b2 % 64 == c2 % 64,
    ensures
        b0 == c0 && b1 == c1 && b2 == c2,
{
    assert(b0 == c0 && b1 == c1 && b2 == c2) by (bit_vector)
        requires
            b0 / 4 == c0 / 4,
            (b0 % 4) * 16 + b1 / 16 == (c0 % 4) * 16 + c1 / 16,
            (b1 % 16) * 4 + b2 / 64 == (c1 % 16) * 4 + c2 / 64,
            b2 % 64 == c2 % 64,
    ;
}

/// Two runs of six bytes with the same URL-safe Base64 text are the same bytes.
pub proof fn lemma_base64url_six_injective(x: Seq<u8>, y: Seq<u8>)
    requires
        x.len() == 6,
        y.len() == 6,
        base64url(x) == base64url(y),
    ensures
        x == y,
{
    let (kx, ky) = (base64url(x), base64url(y));
    let (rx, ry) = (x.subrange(3, 6), y.subrange(3, 6));
    assert(rx.subrange(3, 3) =~= Seq::<u8>::empty());
    assert(ry.subrange(3, 3) =~= Seq::<u8>::empty());
    assert(x.subrange(3, x.len() as int) == rx);
    assert(y.subrange(3, y.len() as int) == ry);
    assert(base64url(rx.subrange(3, 3)) == Seq::<char>::empty());
    assert(base64url(ry.subrange(3, 3)) == Seq::<char>::empty());
    assert(kx == base64url(x.take(3)) + base64url(rx)) by {
        assert(x.take(3).subrange(3, 3) =~= Seq::<u8>::empty());
        assert(base64url(x.take(3).subrange(3, 3)) == Seq::<char>::empty());
    }
    assert(ky == base64url(y.take(3)) + base64url(ry)) by {
        assert(y.take(3).subrange(3, 3) =~= Seq::<u8>::empty());
        assert(base64url(y.take(3).subrange(3, 3)) == Seq::<char>::empty());
    }
    assert(x.take(3).subrange(3, x.take(3).len() as int) =~= Seq::<u8>::empty());
    assert(y.take(3).subrange(3, y.take(3).len() as int) =~= Seq::<u8>::empty());
    assert(rx.subrange(3, rx.len() as int) =~= Seq::<u8>::empty());
    assert(ry.subrange(3, ry.len() as int) =~= Seq::<u8>::empty());
    assert(base64url(x.take(3)).len() == 4 && base64url(y.take(3)).len() == 4);
    assert(base64url(rx).len() == 4 && base64url(ry).len() == 4);
    assert(kx.subrange(0, 4) =~= base64url(x.take(3)));
    assert(ky.subrange(0, 4) =~= base64url(y.take(3)));
    assert(kx.subrange(4, 8) =~= base64url(rx));
    assert(ky.subrange(4, 8) =~= base64url(ry));
    lemma_triple(x.take(3), y.take(3), kx, ky, 0);
    lemma_triple(rx, ry, kx, ky, 4);
    assert(x =~= y) by {
        assert forall|i: int| 0 <= i < 6 implies x[i] == y[i] by {
            if i < 3 {
                assert(x[i] == x.take(3)[i] && y[i] == y.take(3)[i]);
            } else {
                assert(x[i] == rx[i - 3] && y[i] == ry[i - 3]);
            }
        }
    }
}

proof fn lemma_triple(a: Seq<u8>, b: Seq<u8>, ka: Seq<char>, kb: Seq<char>, at: int)
    requires
        a.len() == 3,
        b.len() == 3,
        ka == kb,
        0 <= at,
        at + 4 <= ka.len(),
        ka.subrange(at, at + 4) == base64url(a),
        kb.subrange(at, at + 4) == base64url(b),
    ensures
        a == b,
{
    assert(a.subrange(3, 3) =~= Seq::<u8>::empty());
    assert(b.subrange(3, 3) =~= Seq::<u8>::empty());
    assert(base64url(a.subrange(3, 3)) == Seq::<char>::empty());
    assert(base64url(b.subrange(3, 3)) == Seq::<char>::empty());
    let (ea, eb) = (base64url(a), base64url(b));
    assert(ea == eb);
    let (a0, a1, a2) = (a[0] as int, a[1] as int, a[2] as int);
    let (b0, b1, b2) = (b[0] as int, b[1] as int, b[2] as int);
    assert(ea[0] == base64url_char(a0 / 4) && eb[0] == base64url_char(b0 / 4));
    assert(ea[1] == base64url_char((a0 % 4) * 16 + a1 / 16));
    assert(eb[1] == base64url_char((b0 % 4) * 16 + b1 / 16));
    assert(ea[2] == base64url_char((a1 % 16) * 4 + a2 / 64));
    assert(eb[2] == base64url_char((b1 % 16) * 4 + b2 / 64));
    assert(ea[3] == base64url_char(a2 % 64) && eb[3] == base64url_char(b2 % 64));
    lemma_base64url_char_injective(a0 / 4, b0 / 4);
    lemma_base64url_char_injective((a0 % 4) * 16 + a1 / 16, (b0 % 4) * 16 + b1 / 16);
    lemma_base64url_char_injective((a1 % 16) * 4 + a2 / 64, (b1 % 16) * 4 + b2 / 64);
    lemma_base64url_char_injective(a2 % 64, b2 % 64);
    lemma_group_injective(a[0], a[1], a[2], b[0], b[1], b[2]);
    assert(a =~= b);
}

/// The short key of `url`: the first six bytes of the BLAKE3 hash of its
/// UTF-8 bytes, in URL-safe Base64 without padding.
pub fn generate_short_url(url: &str) -> (r: String)
    ensures
        r@ == short_key(url@),
        r@ == base64url(blake3_digest(encode_utf8(url@)).take(6)),
        is_short_key(r@),
{
    let hash = blake3_hash(url.as_bytes());
    let head = vstd::slice::slice_subrange(hash.as_slice(), 0, 6);
    assert(head@ =~= blake3_digest(encode_utf8(url@)).take(6));
    proof {
        lemma_base64url_six(head@);
    }
    base64url_encode(head)
}

} // verus!
