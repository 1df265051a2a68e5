//! The protocol codec: a deterministic, reversible translation between
//! typed [`Request`] / [`Response`] values and a compact, self-describing
//! binary wire format (CBOR-shaped: definite-length arrays tagged with
//! small unsigned integers, and UTF-8 text strings with minimal-form
//! length headers).
//!
//! Encoding always succeeds for a well-formed value; decoding succeeds
//! exactly on the byte strings that some value encodes to, and then
//! returns that value, so a decode of an encode always gives the
//! original value back.

use vstd::prelude::*;
use vstd::slice::slice_subrange;
use vstd::slice::slice_to_vec;
use vstd::utf8::decode_utf8;
use vstd::utf8::decode_utf8_encode_utf8;
use vstd::utf8::encode_utf8;
use vstd::utf8::encode_utf8_decode_utf8;
use vstd::utf8::encode_utf8_valid_utf8;
use vstd::utf8::valid_utf8;

use crate::protocol::login_result_view;
use crate::protocol::Login;
use crate::protocol::LoginV;
use crate::protocol::Request;
use crate::protocol::RequestV;
use crate::protocol::Response;
use crate::protocol::ResponseError;
use crate::protocol::ResponseV;
use crate::protocol::Session;
use crate::protocol::SessionV;

verus! {

/// 256 to the power `k`: the number of values a `k`-byte big-endian
/// field can hold.
pub open spec fn pow256(k: nat) -> nat
    decreases k,
{
    if k == 0 {
        1
    } else {
        0x100 * pow256((k - 1) as nat)
    }
}

/// The `k`-byte big-endian encoding of `n % pow256(k)`.
pub open spec fn be_bytes(n: nat, k: nat) -> Seq<u8>
    decreases k,
{
    if k == 0 {
        seq![]
    } else {
        be_bytes(n / 0x100, (k - 1) as nat) + seq![(n % 0x100) as u8]
    }
}

/// The value a big-endian byte string denotes.
pub open spec fn be_value(s: Seq<u8>) -> nat
    decreases s.len(),
{
    if s.len() == 0 {
        0
    } else {
        (be_value(s.drop_last()) * 0x100 + s.last()) as nat
    }
}

proof fn lemma_pow256_le(a: nat, b: nat)
    requires
        a <= b,
    ensures
        pow256(a) <= pow256(b),
    decreases b,
{
    if a < b {
        lemma_pow256_le(a, (b - 1) as nat);
    }
}

proof fn lemma_be_bytes_len(n: nat, k: nat)
    ensures
        be_bytes(n, k).len() == k,
    decreases k,
{
    if k > 0 {
        lemma_be_bytes_len(n / 0x100, (k - 1) as nat);
    }
}

/// Reading back the big-endian bytes of a value below `pow256(k)`
/// recovers the value.
proof fn lemma_be_value_of_bytes(n: nat, k: nat)
    requires
        n < pow256(k),
    ensures
        be_value(be_bytes(n, k)) == n,
    decreases k,
{
    if k > 0 {
        lemma_be_bytes_len(n / 0x100, (k - 1) as nat);
        assert(be_bytes(n, k).drop_last() =~= be_bytes(n / 0x100, (k - 1) as nat));
        assert(be_bytes(n, k).last() == (n % 0x100) as u8);
        assert(n / 0x100 < pow256((k - 1) as nat)) by (nonlinear_arith)
            requires
                n < 0x100 * pow256((k - 1) as nat),
        ;
        lemma_be_value_of_bytes(n / 0x100, (k - 1) as nat);
        assert(n == (n / 0x100) * 0x100 + n % 0x100) by (nonlinear_arith);
    }
}

/// Every `k`-byte string is the big-endian encoding of its own value,
/// and that value is below `pow256(k)`.
proof fn lemma_be_bytes_of_value(s: Seq<u8>)
    ensures
        be_value(s) < pow256(s.len()),
        be_bytes(be_value(s), s.len()) == s,
    decreases s.len(),
{
    if s.len() > 0 {
        lemma_be_bytes_of_value(s.drop_last());
        let hi = be_value(s.drop_last());
        let v = be_value(s);
        assert(v == hi * 0x100 + s.last());
        assert(v < pow256(s.len())) by (nonlinear_arith)
            requires
                v == hi * 0x100 + s.last(),
                hi < pow256((s.len() - 1) as nat),
                s.last() < 0x100,
                pow256(s.len() as nat) == 0x100 * pow256((s.len() - 1) as nat),
        ;
        assert(v / 0x100 == hi && v % 0x100 == s.last()) by (nonlinear_arith)
            requires
                v == hi * 0x100 + s.last(),
                s.last() < 0x100,
        ;
        assert(be_bytes(v, s.len()) =~= s);
    }
}

/// True when `p` occurs in `b` starting at `pos`.
pub open spec fn prefix_at(b: Seq<u8>, pos: int, p: Seq<u8>) -> bool {
    &&& 0 <= pos
    &&& pos + p.len() <= b.len()
    &&& b.subrange(pos, pos + p.len()) == p
}

proof fn lemma_prefix_index(b: Seq<u8>, pos: int, p: Seq<u8>, i: int)
    requires
        prefix_at(b, pos, p),
        0 <= i < p.len(),
    ensures
        b[pos + i] == p[i],
{
    assert(b.subrange(pos, pos + p.len())[i] == b[pos + i]);
}

proof fn lemma_prefix_concat(b: Seq<u8>, pos: int, x: Seq<u8>, y: Seq<u8>)
    requires
        prefix_at(b, pos, x + y),
    ensures
        prefix_at(b, pos, x),
        prefix_at(b, pos + x.len(), y),
{
    assert forall|i: int| 0 <= i < x.len() implies b[pos + i] == x[i] by {
        lemma_prefix_index(b, pos, x + y, i);
    }
    assert(b.subrange(pos, pos + x.len()) =~= x);
    assert forall|i: int| 0 <= i < y.len() implies b[pos + x.len() + i] == y[i] by {
        lemma_prefix_index(b, pos, x + y, x.len() + i);
    }
    assert(b.subrange(pos + x.len(), pos + x.len() + y.len()) =~= y);
}

proof fn lemma_subrange_join(b: Seq<u8>, pos: int, mid: int, end: int)
    requires
        0 <= pos <= mid <= end <= b.len(),
    ensures
        b.subrange(pos, end) == b.subrange(pos, mid) + b.subrange(mid, end),
{
    assert(b.subrange(pos, end) =~= b.subrange(pos, mid) + b.subrange(mid, end));
}

/// The minimal-form header of a text string of `n` bytes: the major
/// type for text in the top three bits, then the length, inline when it
/// is below 24, else big-endian in 1, 2, 4 or 8 bytes. Byte lengths at
/// or above `pow256(8)` have no wire form.
pub open spec fn spec_text_header(n: nat) -> Seq<u8> {
    if n < 24 {
        seq![(0x60 + n) as u8]
    } else if n < 0x100 {
        seq![0x78u8] + be_bytes(n, 1)
    } else if n < 0x10000 {
        seq![0x79u8] + be_bytes(n, 2)
    } else if n < 0x100000000 {
        seq![0x7au8] + be_bytes(n, 4)
    } else if n < 0x10000000000000000 {
        seq![0x7bu8] + be_bytes(n, 8)
    } else {
        seq![]
    }
}

/// The wire form of a text string: its header, then its UTF-8 bytes.
pub open spec fn spec_encode_text(s: Seq<char>) -> Seq<u8> {
    spec_text_header(encode_utf8(s).len()) + encode_utf8(s)
}

/// Appends the `k`-byte big-endian form of `n` to `out`.
fn write_be(n: u64, k: usize, out: &mut Vec<u8>)
    requires
        k <= 8,
    ensures
        final(out)@ == old(out)@ + be_bytes(n as nat, k as nat),
    decreases k,
{
    if k == 0 {
        assert(out@ =~= out@ + be_bytes(n as nat, 0));
    } else {
        write_be(n / 0x100, k - 1, out);
        out.push((n % 0x100) as u8);
        assert(out@ =~= old(out)@ + be_bytes(n as nat, k as nat));
    }
}

/// Appends the minimal-form text header for a byte length `n` to `out`.
fn write_text_header(n: usize, out: &mut Vec<u8>)
    ensures
        final(out)@ == old(out)@ + spec_text_header(n as nat),
{
    let m = n as u64;
    if n < 24 {
        out.push(0x60 + n as u8);
        assert(out@ =~= old(out)@ + spec_text_header(n as nat));
    } else if m < 0x100 {
        out.push(0x78);
        write_be(m, 1, out);
        assert(out@ =~= old(out)@ + spec_text_header(n as nat));
    } else if m < 0x10000 {
        out.push(0x79);
        write_be(m, 2, out);
        assert(out@ =~= old(out)@ + spec_text_header(n as nat));
    } else if m < 0x100000000 {
        out.push(0x7a);
        write_be(m, 4, out);
        assert(out@ =~= old(out)@ + spec_text_header(n as nat));
    } else {
        out.push(0x7b);
        write_be(m, 8, out);
        assert(out@ =~= old(out)@ + spec_text_header(n as nat));
    }
}

/// Reads a `k`-byte big-endian value.
fn read_be(bytes: &[u8], pos: usize, k: usize) -> (v: u64)
    requires
        pos + k <= bytes@.len(),
        k <= 8,
    ensures
        v as nat == be_value(bytes@.subrange(pos as int, pos + k as int)),
{
    proof {
        assert(pow256(0) == 1);
        assert(pow256(1) == 0x100);
        assert(pow256(2) == 0x10000);
        assert(pow256(3) == 0x1000000);
        assert(pow256(4) == 0x100000000);
        assert(pow256(5) == 0x10000000000);
        assert(pow256(6) == 0x1000000000000);
        assert(pow256(7) == 0x100000000000000);
        assert(pow256(8) == 0x10000000000000000);
    }
    let total = bytes.len();
    let mut v: u64 = 0;
    let mut i: usize = 0;
    while i < k
        invariant
            total == bytes@.len(),
            pos + k <= bytes@.len(),
            k <= 8,
            i <= k,
            v as nat == be_value(bytes@.subrange(pos as int, pos + i as int)),
            (v as nat) < pow256(i as nat),
        decreases k - i,
    {
        let b = bytes[pos + i];
        proof {
            assert(bytes@.subrange(pos as int, pos + i + 1).drop_last() =~= bytes@.subrange(
                pos as int,
                pos + i as int,
            ));
            assert(bytes@.subrange(pos as int, pos + i + 1).last() == bytes@[pos + i]);
            lemma_pow256_le((i + 1) as nat, 8);
            assert(pow256((i + 1) as nat) == 0x100 * pow256(i as nat));
            assert(pow256(8) == 0x10000000000000000) by {
                assert(pow256(0) == 1);
                assert(pow256(1) == 0x100);
                assert(pow256(2) == 0x10000);
                assert(pow256(3) == 0x1000000);
                assert(pow256(4) == 0x100000000);
                assert(pow256(5) == 0x10000000000);
                assert(pow256(6) == 0x1000000000000);
                assert(pow256(7) == 0x100000000000000);
            }
        }
        v = v * 0x100 + (b as u64);
        i = i + 1;
    }
    assert(bytes@.subrange(pos as int, pos + k as int) == bytes@.subrange(
        pos as int,
        pos + i as int,
    ));
    v
}

/// The length and the first byte of a text header, by size class.
proof fn lemma_text_header_shape(m: nat)
    requires
        m < 0x10000000000000000,
    ensures
        1 <= spec_text_header(m).len(),
        m < 24 ==> spec_text_header(m) == seq![(0x60 + m) as u8] && 0x60 <= spec_text_header(
            m,
        )[0] <= 0x77,
        0x18 <= m < 0x100 ==> spec_text_header(m).len() == 2 && spec_text_header(m)[0] == 0x78,
        0x100 <= m < 0x10000 ==> spec_text_header(m).len() == 3 && spec_text_header(m)[0] == 0x79,
        0x10000 <= m < 0x100000000 ==> spec_text_header(m).len() == 5 && spec_text_header(m)[0]
            == 0x7a,
        0x100000000 <= m ==> spec_text_header(m).len() == 9 && spec_text_header(m)[0] == 0x7b,
{
    if m < 24 {
    } else if m < 0x100 {
        lemma_be_bytes_len(m, 1);
        assert(spec_text_header(m)[0] == 0x78);
    } else if m < 0x10000 {
        lemma_be_bytes_len(m, 2);
        assert(spec_text_header(m)[0] == 0x79);
    } else if m < 0x100000000 {
        lemma_be_bytes_len(m, 4);
        assert(spec_text_header(m)[0] == 0x7a);
    } else {
        lemma_be_bytes_len(m, 8);
        assert(spec_text_header(m)[0] == 0x7b);
    }
}

/// What a text header found at `pos` says about the byte under it and
/// about the big-endian length field that follows the first byte.
proof fn lemma_header_class(bs: Seq<u8>, pos: int, m: nat)
    requires
        m < 0x10000000000000000,
        prefix_at(bs, pos, spec_text_header(m)),
    ensures
        0x60 <= bs[pos] <= 0x7b,
        0x60 <= bs[pos] <= 0x77 ==> m < 24 && m == bs[pos] - 0x60 && spec_text_header(m).len()
            == 1,
        bs[pos] == 0x78 ==> 0x18 <= m < 0x100 && prefix_at(bs, pos + 1, be_bytes(m, 1))
            && spec_text_header(m).len() == 2,
        bs[pos] == 0x79 ==> 0x100 <= m < 0x10000 && prefix_at(bs, pos + 1, be_bytes(m, 2))
            && spec_text_header(m).len() == 3,
        bs[pos] == 0x7a ==> 0x10000 <= m < 0x100000000 && prefix_at(bs, pos + 1, be_bytes(m, 4))
            && spec_text_header(m).len() == 5,
        bs[pos] == 0x7b ==> 0x100000000 <= m && prefix_at(bs, pos + 1, be_bytes(m, 8))
            && spec_text_header(m).len() == 9,
{
    lemma_text_header_shape(m);
    lemma_prefix_index(bs, pos, spec_text_header(m), 0);
    if m < 24 {
    } else if m < 0x100 {
        lemma_prefix_concat(bs, pos, seq![0x78u8], be_bytes(m, 1));
    } else if m < 0x10000 {
        lemma_prefix_concat(bs, pos, seq![0x79u8], be_bytes(m, 2));
    } else if m < 0x100000000 {
        lemma_prefix_concat(bs, pos, seq![0x7au8], be_bytes(m, 4));
    } else {
        lemma_prefix_concat(bs, pos, seq![0x7bu8], be_bytes(m, 8));
    }
}

proof fn lemma_pow256_values()
    ensures
        pow256(1) == 0x100,
        pow256(2) == 0x10000,
        pow256(4) == 0x100000000,
        pow256(8) == 0x10000000000000000,
{
    assert(pow256(0) == 1);
    assert(pow256(1) == 0x100);
    assert(pow256(2) == 0x10000);
    assert(pow256(3) == 0x1000000);
    assert(pow256(4) == 0x100000000);
    assert(pow256(5) == 0x10000000000);
    assert(pow256(6) == 0x1000000000000);
    assert(pow256(7) == 0x100000000000000);
    assert(pow256(8) == 0x10000000000000000);
}

/// Reads a minimal-form text header at `pos`: the byte length it
/// declares, and how many bytes the header itself occupies.
fn read_text_header(bytes: &[u8], pos: usize) -> (r: Option<(u64, usize)>)
    requires
        pos <= bytes@.len(),
    ensures
        r matches Some((n, hlen)) ==> 1 <= hlen && pos + hlen <= bytes@.len() && bytes@.subrange(
            pos as int,
            pos + hlen as int,
        ) == spec_text_header(n as nat),
        forall|m: nat|
            #![trigger spec_text_header(m)]
            m < 0x10000000000000000 && prefix_at(bytes@, pos as int, spec_text_header(m)) ==> (
            r matches Some((n, hlen)) && n as nat == m && hlen as int == spec_text_header(
                m,
            ).len()),
{
    let ghost bs = bytes@;
    let len = bytes.len();
    proof {
        lemma_pow256_values();
    }
    if pos >= len {
        proof {
            assert forall|m: nat|
                #![trigger spec_text_header(m)]
                !(m < 0x10000000000000000 && prefix_at(bs, pos as int, spec_text_header(m))) by {
                if m < 0x10000000000000000 && prefix_at(bs, pos as int, spec_text_header(m)) {
                    lemma_text_header_shape(m);
                }
            }
        }
        return None;
    }
    let b0 = bytes[pos];
    if 0x60 <= b0 && b0 <= 0x77 {
        let n = (b0 - 0x60) as u64;
        proof {
            assert(bs.subrange(pos as int, pos + 1) =~= spec_text_header(n as nat));
            assert forall|m: nat|
                #![trigger spec_text_header(m)]
                m < 0x10000000000000000 && prefix_at(bs, pos as int, spec_text_header(m)) implies (
            n as nat == m && 1 == spec_text_header(m).len()) by {
                lemma_header_class(bs, pos as int, m);
            }
        }
        Some((n, 1))
    } else if b0 == 0x78 {
        if len - pos < 2 {
            proof {
                assert forall|m: nat|
                    #![trigger spec_text_header(m)]
                    !(m < 0x10000000000000000 && prefix_at(bs, pos as int, spec_text_header(
                        m,
                    ))) by {
                    if m < 0x10000000000000000 && prefix_at(bs, pos as int, spec_text_header(m)) {
                        lemma_header_class(bs, pos as int, m);
                    }
                }
            }
            return None;
        }
        let v = read_be(bytes, pos + 1, 1);
        proof {
            lemma_be_bytes_of_value(bs.subrange(pos + 1, pos + 2));
        }
        if v < 24 {
            proof {
                assert forall|m: nat|
                    #![trigger spec_text_header(m)]
                    !(m < 0x10000000000000000 && prefix_at(bs, pos as int, spec_text_header(
                        m,
                    ))) by {
                    if m < 0x10000000000000000 && prefix_at(bs, pos as int, spec_text_header(m)) {
                        lemma_header_class(bs, pos as int, m);
                        lemma_be_value_of_bytes(m, 1);
                    }
                }
            }
            return None;
        }
        proof {
            assert(bs.subrange(pos as int, pos + 2) =~= seq![0x78u8] + bs.subrange(
                pos + 1,
                pos + 2,
            ));
            assert(bs.subrange(pos as int, pos + 2) == spec_text_header(v as nat));
            assert forall|m: nat|
                #![trigger spec_text_header(m)]
                m < 0x10000000000000000 && prefix_at(bs, pos as int, spec_text_header(m)) implies (
            v as nat == m && 2 == spec_text_header(m).len()) by {
                lemma_header_class(bs, pos as int, m);
                lemma_be_value_of_bytes(m, 1);
            }
        }
        Some((v, 2))
    } else if b0 == 0x79 {
        if len - pos < 3 {
            proof {
                assert forall|m: nat|
                    #![trigger spec_text_header(m)]
                    !(m < 0x10000000000000000 && prefix_at(bs, pos as int, spec_text_header(
                        m,
                    ))) by {
                    if m < 0x10000000000000000 && prefix_at(bs, pos as int, spec_text_header(m)) {
                        lemma_header_class(bs, pos as int, m);
                    }
                }
            }
            return None;
        }
        let v = read_be(bytes, pos + 1, 2);
        proof {
            lemma_be_bytes_of_value(bs.subrange(pos + 1, pos + 3));
        }
        if v < 0x100 {
            proof {
                assert forall|m: nat|
                    #![trigger spec_text_header(m)]
                    !(m < 0x10000000000000000 && prefix_at(bs, pos as int, spec_text_header(
                        m,
                    ))) by {
                    if m < 0x10000000000000000 && prefix_at(bs, pos as int, spec_text_header(m)) {
                        lemma_header_class(bs, pos as int, m);
                        lemma_be_value_of_bytes(m, 2);
                    }
                }
            }
            return None;
        }
        proof {
            assert(bs.subrange(pos as int, pos + 3) =~= seq![0x79u8] + bs.subrange(
                pos + 1,
                pos + 3,
            ));
            assert(bs.subrange(pos as int, pos + 3) == spec_text_header(v as nat));
            assert forall|m: nat|
                #![trigger spec_text_header(m)]
                m < 0x10000000000000000 && prefix_at(bs, pos as int, spec_text_header(m)) implies (
            v as nat == m && 3 == spec_text_header(m).len()) by {
                lemma_header_class(bs, pos as int, m);
                lemma_be_value_of_bytes(m, 2);
            }
        }
        Some((v, 3))
    } else if b0 == 0x7a {
        if len - pos < 5 {
            proof {
                assert forall|m: nat|
                    #![trigger spec_text_header(m)]
                    !(m < 0x10000000000000000 && prefix_at(bs, pos as int, spec_text_header(
                        m,
                    ))) by {
                    if m < 0x10000000000000000 && prefix_at(bs, pos as int, spec_text_header(m)) {
                        lemma_header_class(bs, pos as int, m);
                    }
                }
            }
            return None;
        }
        let v = read_be(bytes, pos + 1, 4);
        proof {
            lemma_be_bytes_of_value(bs.subrange(pos + 1, pos + 5));
        }
        if v < 0x10000 {
            proof {
                assert forall|m: nat|
                    #![trigger spec_text_header(m)]
                    !(m < 0x10000000000000000 && prefix_at(bs, pos as int, spec_text_header(
                        m,
                    ))) by {
                    if m < 0x10000000000000000 && prefix_at(bs, pos as int, spec_text_header(m)) {
                        lemma_header_class(bs, pos as int, m);
                        lemma_be_value_of_bytes(m, 4);
                    }
                }
            }
            return None;
        }
        proof {
            assert(bs.subrange(pos as int, pos + 5) =~= seq![0x7au8] + bs.subrange(
                pos + 1,
                pos + 5,
            ));
            assert(bs.subrange(pos as int, pos + 5) == spec_text_header(v as nat));
            assert forall|m: nat|
                #![trigger spec_text_header(m)]
                m < 0x10000000000000000 && prefix_at(bs, pos as int, spec_text_header(m)) implies (
            v as nat == m && 5 == spec_text_header(m).len()) by {
                lemma_header_class(bs, pos as int, m);
                lemma_be_value_of_bytes(m, 4);
            }
        }
        Some((v, 5))
    } else if b0 == 0x7b {
        if len - pos < 9 {
            proof {
                assert forall|m: nat|
                    #![trigger spec_text_header(m)]
                    !(m < 0x10000000000000000 && prefix_at(bs, pos as int, spec_text_header(
                        m,
                    ))) by {
                    if m < 0x10000000000000000 && prefix_at(bs, pos as int, spec_text_header(m)) {
                        lemma_header_class(bs, pos as int, m);
                    }
                }
            }
            return None;
        }
        let v = read_be(bytes, pos + 1, 8);
        proof {
            lemma_be_bytes_of_value(bs.subrange(pos + 1, pos + 9));
        }
        if v < 0x100000000 {
            proof {
                assert forall|m: nat|
                    #![trigger spec_text_header(m)]
                    !(m < 0x10000000000000000 && prefix_at(bs, pos as int, spec_text_header(
                        m,
                    ))) by {
                    if m < 0x10000000000000000 && prefix_at(bs, pos as int, spec_text_header(m)) {
                        lemma_header_class(bs, pos as int, m);
                        lemma_be_value_of_bytes(m, 8);
                    }
                }
            }
            return None;
        }
        proof {
            assert(bs.subrange(pos as int, pos + 9) =~= seq![0x7bu8] + bs.subrange(
                pos + 1,
                pos + 9,
            ));
            assert(bs.subrange(pos as int, pos + 9) == spec_text_header(v as nat));
            assert forall|m: nat|
                #![trigger spec_text_header(m)]
                m < 0x10000000000000000 && prefix_at(bs, pos as int, spec_text_header(m)) implies (
            v as nat == m && 9 == spec_text_header(m).len()) by {
                lemma_header_class(bs, pos as int, m);
                lemma_be_value_of_bytes(m, 8);
            }
        }
        Some((v, 9))
    } else {
        proof {
            assert forall|m: nat|
                #![trigger spec_text_header(m)]
                !(m < 0x10000000000000000 && prefix_at(bs, pos as int, spec_text_header(m))) by {
                if m < 0x10000000000000000 && prefix_at(bs, pos as int, spec_text_header(m)) {
                    lemma_header_class(bs, pos as int, m);
                }
            }
        }
        None
    }
}

/// Relies on str::from_utf8: it succeeds exactly on the valid UTF-8
/// byte strings, and then yields the characters those bytes encode.
#[verifier::external_body]
fn bytes_to_string(v: &[u8]) -> (r: Option<String>)
    ensures
        r is Some <==> valid_utf8(v@),
        r matches Some(s) ==> s@ == decode_utf8(v@),
{
    match std::str::from_utf8(v) {
        Ok(s) => Some(s.to_owned()),
        Err(_) => None,
    }
}

/// Parses one text string at `pos`. Returns the string and the position
/// right after it; fails exactly where no text string is encoded.
fn parse_text(bytes: &[u8], pos: usize) -> (r: Option<(String, usize)>)
    requires
        pos <= bytes@.len(),
    ensures
        r matches Some((s, end)) ==> pos < end <= bytes@.len() && bytes@.subrange(
            pos as int,
            end as int,
        ) == spec_encode_text(s@),
        forall|cs: Seq<char>|
            #![trigger spec_encode_text(cs)]
            prefix_at(bytes@, pos as int, spec_encode_text(cs)) ==> (r matches Some((s, end))
                && s@ == cs && end as int == pos + spec_encode_text(cs).len()),
{
    let ghost bs = bytes@;
    let len = bytes.len();
    match read_text_header(bytes, pos) {
        None => {
            proof {
                assert forall|cs: Seq<char>|
                    #![trigger spec_encode_text(cs)]
                    !prefix_at(bs, pos as int, spec_encode_text(cs)) by {
                    if prefix_at(bs, pos as int, spec_encode_text(cs)) {
                        let mu = encode_utf8(cs).len();
                        lemma_prefix_concat(
                            bs,
                            pos as int,
                            spec_text_header(mu),
                            encode_utf8(cs),
                        );
                        if mu < 0x10000000000000000 {
                            assert(prefix_at(bs, pos as int, spec_text_header(mu)));
                        } else {
                            assert(spec_text_header(mu) =~= Seq::<u8>::empty());
                        }
                    }
                }
            }
            None
        },
        Some((n, hlen)) => {
            let avail = (len - pos) - hlen;
            if n > avail as u64 {
                proof {
                    assert forall|cs: Seq<char>|
                        #![trigger spec_encode_text(cs)]
                        !prefix_at(bs, pos as int, spec_encode_text(cs)) by {
                        if prefix_at(bs, pos as int, spec_encode_text(cs)) {
                            let mu = encode_utf8(cs).len();
                            lemma_prefix_concat(
                                bs,
                                pos as int,
                                spec_text_header(mu),
                                encode_utf8(cs),
                            );
                            if mu < 0x10000000000000000 {
                                assert(prefix_at(bs, pos as int, spec_text_header(mu)));
                            } else {
                                assert(spec_text_header(mu) =~= Seq::<u8>::empty());
                            }
                        }
                    }
                }
                return None;
            }
            let start = pos + hlen;
            let nn = n as usize;
            let end = start + nn;
            let payload = slice_subrange(bytes, start, end);
            match bytes_to_string(payload) {
                None => {
                    proof {
                        assert forall|cs: Seq<char>|
                            #![trigger spec_encode_text(cs)]
                            !prefix_at(bs, pos as int, spec_encode_text(cs)) by {
                            if prefix_at(bs, pos as int, spec_encode_text(cs)) {
                                let mu = encode_utf8(cs).len();
                                lemma_prefix_concat(
                                    bs,
                                    pos as int,
                                    spec_text_header(mu),
                                    encode_utf8(cs),
                                );
                                if mu < 0x10000000000000000 {
                                    assert(prefix_at(bs, pos as int, spec_text_header(mu)));
                                    assert(payload@ =~= encode_utf8(cs));
                                    encode_utf8_valid_utf8(cs);
                                } else {
                                    assert(spec_text_header(mu) =~= Seq::<u8>::empty());
                                }
                            }
                        }
                    }
                    None
                },
                Some(s) => {
                    proof {
                        decode_utf8_encode_utf8(payload@);
                        assert(encode_utf8(s@) == payload@);
                        lemma_subrange_join(bs, pos as int, start as int, end as int);
                        assert(bs.subrange(pos as int, end as int) == spec_encode_text(s@));
                        assert forall|cs: Seq<char>|
                            #![trigger spec_encode_text(cs)]
                            prefix_at(bs, pos as int, spec_encode_text(cs)) implies (s@ == cs
                            && end as int == pos + spec_encode_text(cs).len()) by {
                            let mu = encode_utf8(cs).len();
                            lemma_prefix_concat(
                                bs,
                                pos as int,
                                spec_text_header(mu),
                                encode_utf8(cs),
                            );
                            if mu < 0x10000000000000000 {
                                assert(prefix_at(bs, pos as int, spec_text_header(mu)));
                                assert(payload@ =~= encode_utf8(cs));
                                encode_utf8_decode_utf8(cs);
                            } else {
                                assert(spec_text_header(mu) =~= Seq::<u8>::empty());
                            }
                        }
                    }
                    Some((s, end))
                },
            }
        },
    }
}

/// The single wire byte that names a [`ResponseError`] variant.
pub open spec fn spec_err_byte(e: ResponseError) -> u8 {
    match e {
        ResponseError::WrongUsernamePassword => 0x00,
        ResponseError::Database => 0x01,
        ResponseError::TokenInvalid => 0x02,
    }
}

/// The wire form of a login payload: an array of the variant tag and
/// the variant's fields.
pub open spec fn spec_encode_login(l: LoginV) -> Seq<u8> {
    match l {
        LoginV::Credentials { username, password } => seq![0x83u8, 0x00u8] + spec_encode_text(
            username,
        ) + spec_encode_text(password),
        LoginV::TokenRenewal(s) => seq![0x82u8, 0x01u8] + spec_encode_text(s.token),
    }
}

/// The wire form of a request: an array of the variant tag and the
/// payload.
pub open spec fn spec_encode_request(r: RequestV) -> Seq<u8> {
    match r {
        RequestV::Login(l) => seq![0x82u8, 0x00u8] + spec_encode_login(l),
        RequestV::Logout(s) => seq![0x82u8, 0x01u8] + spec_encode_text(s.token),
    }
}

/// The wire form of a login outcome.
pub open spec fn spec_encode_login_result(r: Result<SessionV, ResponseError>) -> Seq<u8> {
    match r {
        Ok(s) => seq![0x82u8, 0x00u8] + spec_encode_text(s.token),
        Err(e) => seq![0x82u8, 0x01u8, spec_err_byte(e)],
    }
}

/// The wire form of a logout outcome.
pub open spec fn spec_encode_logout_result(r: Result<(), ResponseError>) -> Seq<u8> {
    match r {
        Ok(_) => seq![0x81u8, 0x00u8],
        Err(e) => seq![0x82u8, 0x01u8, spec_err_byte(e)],
    }
}

/// The wire form of a response: an array of the variant tag and the
/// outcome.
pub open spec fn spec_encode_response(r: ResponseV) -> Seq<u8> {
    match r {
        ResponseV::Login(res) => seq![0x82u8, 0x00u8] + spec_encode_login_result(res),
        ResponseV::Logout(res) => seq![0x82u8, 0x01u8] + spec_encode_logout_result(res),
    }
}

fn err_byte(e: &ResponseError) -> (b: u8)
    ensures
        b == spec_err_byte(*e),
{
    match e {
        ResponseError::WrongUsernamePassword => 0x00,
        ResponseError::Database => 0x01,
        ResponseError::TokenInvalid => 0x02,
    }
}

/// Appends the wire form of one text string to `out`.
fn encode_text(s: &str, out: &mut Vec<u8>)
    ensures
        final(out)@ == old(out)@ + spec_encode_text(s@),
{
    let mut tail = slice_to_vec(s.as_bytes());
    let n = tail.len();
    write_text_header(n, out);
    out.append(&mut tail);
    assert(out@ =~= old(out)@ + spec_encode_text(s@));
}

/// Encodes a request to its wire bytes. Never fails.
pub fn encode_request(request: &Request) -> (out: Vec<u8>)
    ensures
        out@ == spec_encode_request(request@),
{
    let mut out: Vec<u8> = Vec::new();
    match request {
        Request::Login(l) => {
            out.push(0x82);
            out.push(0x00);
            match l {
                Login::Credentials { username, password } => {
                    out.push(0x83);
                    out.push(0x00);
                    encode_text(username.as_str(), &mut out);
                    encode_text(password.as_str(), &mut out);
                    assert(out@ =~= spec_encode_request(request@));
                },
                Login::TokenRenewal(s) => {
                    out.push(0x82);
                    out.push(0x01);
                    encode_text(s.token.as_str(), &mut out);
                    assert(out@ =~= spec_encode_request(request@));
                },
            }
        },
        Request::Logout(s) => {
            out.push(0x82);
            out.push(0x01);
            encode_text(s.token.as_str(), &mut out);
            assert(out@ =~= spec_encode_request(request@));
        },
    }
    out
}

/// Encodes a response to its wire bytes. Never fails.
pub fn encode_response(response: &Response) -> (out: Vec<u8>)
    ensures
        out@ == spec_encode_response(response@),
{
    let mut out: Vec<u8> = Vec::new();
    match response {
        Response::Login(res) => {
            out.push(0x82);
            out.push(0x00);
            match res {
                Ok(s) => {
                    out.push(0x82);
                    out.push(0x00);
                    encode_text(s.token.as_str(), &mut out);
                    assert(out@ =~= spec_encode_response(response@));
                },
                Err(e) => {
                    out.push(0x82);
                    out.push(0x01);
                    out.push(err_byte(e));
                    assert(out@ =~= spec_encode_response(response@));
                },
            }
        },
        Response::Logout(res) => {
            out.push(0x82);
            out.push(0x01);
            match res {
                Ok(_) => {
                    out.push(0x81);
                    out.push(0x00);
                    assert(out@ =~= spec_encode_response(response@));
                },
                Err(e) => {
                    out.push(0x82);
                    out.push(0x01);
                    out.push(err_byte(e));
                    assert(out@ =~= spec_encode_response(response@));
                },
            }
        },
    }
    out
}

/// How a login payload's wire form begins, and where its parts lie.
proof fn lemma_login_prefix(bs: Seq<u8>, pos: int, lv: LoginV)
    requires
        prefix_at(bs, pos, spec_encode_login(lv)),
    ensures
        pos + 2 <= bs.len(),
        lv matches LoginV::Credentials { username, password } ==> bs[pos] == 0x83 && bs[pos + 1]
            == 0x00 && prefix_at(bs, pos + 2, spec_encode_text(username)) && prefix_at(
            bs,
            pos + 2 + spec_encode_text(username).len(),
            spec_encode_text(password),
        ) && spec_encode_login(lv).len() == 2 + spec_encode_text(username).len()
            + spec_encode_text(password).len(),
        lv matches LoginV::TokenRenewal(sv) ==> bs[pos] == 0x82 && bs[pos + 1] == 0x01
            && prefix_at(bs, pos + 2, spec_encode_text(sv.token)) && spec_encode_login(lv).len()
            == 2 + spec_encode_text(sv.token).len(),
{
    match lv {
        LoginV::Credentials { username, password } => {
            let tu = spec_encode_text(username);
            let tp = spec_encode_text(password);
            assert(spec_encode_login(lv) =~= seq![0x83u8, 0x00u8] + (tu + tp));
            lemma_prefix_index(bs, pos, spec_encode_login(lv), 0);
            lemma_prefix_index(bs, pos, spec_encode_login(lv), 1);
            lemma_prefix_concat(bs, pos, seq![0x83u8, 0x00u8], tu + tp);
            lemma_prefix_concat(bs, pos + 2, tu, tp);
        },
        LoginV::TokenRenewal(sv) => {
            let tt = spec_encode_text(sv.token);
            lemma_prefix_index(bs, pos, spec_encode_login(lv), 0);
            lemma_prefix_index(bs, pos, spec_encode_login(lv), 1);
            lemma_prefix_concat(bs, pos, seq![0x82u8, 0x01u8], tt);
        },
    }
}

/// Parses one login payload at `pos`.
fn parse_login(bytes: &[u8], pos: usize) -> (r: Option<(Login, usize)>)
    requires
        pos <= bytes@.len(),
    ensures
        r matches Some((l, end)) ==> pos < end <= bytes@.len() && bytes@.subrange(
            pos as int,
            end as int,
        ) == spec_encode_login(l@),
        forall|lv: LoginV|
            #![trigger spec_encode_login(lv)]
            prefix_at(bytes@, pos as int, spec_encode_login(lv)) ==> (r matches Some((l, end))
                && l@ == lv && end as int == pos + spec_encode_login(lv).len()),
{
    let ghost bs = bytes@;
    let len = bytes.len();
    if len - pos < 2 {
        proof {
            assert forall|lv: LoginV|
                #![trigger spec_encode_login(lv)]
                !prefix_at(bs, pos as int, spec_encode_login(lv)) by {
                if prefix_at(bs, pos as int, spec_encode_login(lv)) {
                    lemma_login_prefix(bs, pos as int, lv);
                }
            }
        }
        return None;
    }
    let b0 = bytes[pos];
    let b1 = bytes[pos + 1];
    if b0 == 0x83 && b1 == 0x00 {
        match parse_text(bytes, pos + 2) {
            None => {
                proof {
                    assert forall|lv: LoginV|
                        #![trigger spec_encode_login(lv)]
                        !prefix_at(bs, pos as int, spec_encode_login(lv)) by {
                        if prefix_at(bs, pos as int, spec_encode_login(lv)) {
                            lemma_login_prefix(bs, pos as int, lv);
                        }
                    }
                }
                None
            },
            Some((u, e1)) => {
                match parse_text(bytes, e1) {
                    None => {
                        proof {
                            assert forall|lv: LoginV|
                                #![trigger spec_encode_login(lv)]
                                !prefix_at(bs, pos as int, spec_encode_login(lv)) by {
                                if prefix_at(bs, pos as int, spec_encode_login(lv)) {
                                    lemma_login_prefix(bs, pos as int, lv);
                                }
                            }
                        }
                        None
                    },
                    Some((p, e2)) => {
                        let l = Login::Credentials { username: u, password: p };
                        proof {
                            assert(bs.subrange(pos as int, pos + 2) =~= seq![0x83u8, 0x00u8]);
                            lemma_subrange_join(bs, pos as int, pos + 2, e1 as int);
                            lemma_subrange_join(bs, pos as int, e1 as int, e2 as int);
                            assert(bs.subrange(pos as int, e2 as int) =~= seq![0x83u8, 0x00u8] + (
                            bs.subrange(pos + 2, e1 as int) + bs.subrange(e1 as int, e2 as int)));
                            assert(bs.subrange(pos as int, e2 as int) == spec_encode_login(l@));
                            assert forall|lv: LoginV|
                                #![trigger spec_encode_login(lv)]
                                prefix_at(bs, pos as int, spec_encode_login(lv)) implies (l@ == lv
                                && e2 as int == pos + spec_encode_login(lv).len()) by {
                                lemma_login_prefix(bs, pos as int, lv);
                            }
                        }
                        Some((l, e2))
                    },
                }
            },
        }
    } else if b0 == 0x82 && b1 == 0x01 {
        match parse_text(bytes, pos + 2) {
            None => {
                proof {
                    assert forall|lv: LoginV|
                        #![trigger spec_encode_login(lv)]
                        !prefix_at(bs, pos as int, spec_encode_login(lv)) by {
                        if prefix_at(bs, pos as int, spec_encode_login(lv)) {
                            lemma_login_prefix(bs, pos as int, lv);
                        }
                    }
                }
                None
            },
            Some((tok, e1)) => {
                let l = Login::TokenRenewal(Session { token: tok });
                proof {
                    assert(bs.subrange(pos as int, pos + 2) =~= seq![0x82u8, 0x01u8]);
                    lemma_subrange_join(bs, pos as int, pos + 2, e1 as int);
                    assert(bs.subrange(pos as int, e1 as int) == spec_encode_login(l@));
                    assert forall|lv: LoginV|
                        #![trigger spec_encode_login(lv)]
                        prefix_at(bs, pos as int, spec_encode_login(lv)) implies (l@ == lv
                        && e1 as int == pos + spec_encode_login(lv).len()) by {
                        lemma_login_prefix(bs, pos as int, lv);
                    }
                }
                Some((l, e1))
            },
        }
    } else {
        proof {
            assert forall|lv: LoginV|
                #![trigger spec_encode_login(lv)]
                !prefix_at(bs, pos as int, spec_encode_login(lv)) by {
                if prefix_at(bs, pos as int, spec_encode_login(lv)) {
                    lemma_login_prefix(bs, pos as int, lv);
                }
            }
        }
        None
    }
}

/// How a request's wire form begins, and where its payload lies.
proof fn lemma_request_prefix(bs: Seq<u8>, pos: int, v: RequestV)
    requires
        prefix_at(bs, pos, spec_encode_request(v)),
    ensures
        pos + 2 <= bs.len(),
        bs[pos] == 0x82,
        v matches RequestV::Login(lv) ==> bs[pos + 1] == 0x00 && prefix_at(
            bs,
            pos + 2,
            spec_encode_login(lv),
        ) && spec_encode_request(v).len() == 2 + spec_encode_login(lv).len(),
        v matches RequestV::Logout(sv) ==> bs[pos + 1] == 0x01 && prefix_at(
            bs,
            pos + 2,
            spec_encode_text(sv.token),
        ) && spec_encode_request(v).len() == 2 + spec_encode_text(sv.token).len(),
{
    lemma_prefix_index(bs, pos, spec_encode_request(v), 0);
    lemma_prefix_index(bs, pos, spec_encode_request(v), 1);
    match v {
        RequestV::Login(lv) => {
            lemma_prefix_concat(bs, pos, seq![0x82u8, 0x00u8], spec_encode_login(lv));
        },
        RequestV::Logout(sv) => {
            lemma_prefix_concat(bs, pos, seq![0x82u8, 0x01u8], spec_encode_text(sv.token));
        },
    }
}

/// Decodes a whole inbound message as a request.
///
/// Succeeds exactly on the byte strings that some request encodes to
/// (no unknown tags, no malformed or non-minimal text, no trailing
/// bytes), and then returns that request.
pub fn decode_request(bytes: &[u8]) -> (r: Option<Request>)
    ensures
        r matches Some(req) ==> bytes@ == spec_encode_request(req@),
        forall|v: RequestV|
            #![trigger spec_encode_request(v)]
            bytes@ == spec_encode_request(v) ==> (r matches Some(req) && req@ == v),
{
    let ghost bs = bytes@;
    proof {
        assert(bs.subrange(0, bs.len() as int) =~= bs);
    }
    let len = bytes.len();
    if len < 2 {
        proof {
            assert forall|v: RequestV| #![trigger spec_encode_request(v)] bs != spec_encode_request(
                v,
            ) by {
                if bs == spec_encode_request(v) {
                    lemma_request_prefix(bs, 0, v);
                }
            }
        }
        return None;
    }
    let b0 = bytes[0];
    let b1 = bytes[1];
    if b0 != 0x82 {
        proof {
            assert forall|v: RequestV| #![trigger spec_encode_request(v)] bs != spec_encode_request(
                v,
            ) by {
                if bs == spec_encode_request(v) {
                    lemma_request_prefix(bs, 0, v);
                }
            }
        }
        return None;
    }
    if b1 == 0x00 {
        match parse_login(bytes, 2) {
            Some((l, end)) if end == len => {
                let req = Request::Login(l);
                proof {
                    lemma_subrange_join(bs, 0, 2, end as int);
                    assert(bs.subrange(0, 2) =~= seq![0x82u8, 0x00u8]);
                    assert(bs == spec_encode_request(req@));
                    assert forall|v: RequestV|
                        #![trigger spec_encode_request(v)]
                        bs == spec_encode_request(v) implies req@ == v by {
                        lemma_request_prefix(bs, 0, v);
                    }
                }
                Some(req)
            },
            _ => {
                proof {
                    assert forall|v: RequestV|
                        #![trigger spec_encode_request(v)]
                        bs != spec_encode_request(v) by {
                        if bs == spec_encode_request(v) {
                            lemma_request_prefix(bs, 0, v);
                        }
                    }
                }
                None
            },
        }
    } else if b1 == 0x01 {
        match parse_text(bytes, 2) {
            Some((tok, end)) if end == len => {
                let req = Request::Logout(Session { token: tok });
                proof {
                    lemma_subrange_join(bs, 0, 2, end as int);
                    assert(bs.subrange(0, 2) =~= seq![0x82u8, 0x01u8]);
                    assert(bs == spec_encode_request(req@));
                    assert forall|v: RequestV|
                        #![trigger spec_encode_request(v)]
                        bs == spec_encode_request(v) implies req@ == v by {
                        lemma_request_prefix(bs, 0, v);
                    }
                }
                Some(req)
            },
            _ => {
                proof {
                    assert forall|v: RequestV|
                        #![trigger spec_encode_request(v)]
                        bs != spec_encode_request(v) by {
                        if bs == spec_encode_request(v) {
                            lemma_request_prefix(bs, 0, v);
                        }
                    }
                }
                None
            },
        }
    } else {
        proof {
            assert forall|v: RequestV| #![trigger spec_encode_request(v)] bs != spec_encode_request(
                v,
            ) by {
                if bs == spec_encode_request(v) {
                    lemma_request_prefix(bs, 0, v);
                }
            }
        }
        None
    }
}

/// How a login outcome's wire form begins, and where its parts lie.
proof fn lemma_login_result_prefix(bs: Seq<u8>, pos: int, rv: Result<SessionV, ResponseError>)
    requires
        prefix_at(bs, pos, spec_encode_login_result(rv)),
    ensures
        pos + 2 <= bs.len(),
        bs[pos] == 0x82,
        rv matches Ok(sv) ==> bs[pos + 1] == 0x00 && prefix_at(
            bs,
            pos + 2,
            spec_encode_text(sv.token),
        ) && spec_encode_login_result(rv).len() == 2 + spec_encode_text(sv.token).len(),
        rv matches Err(e) ==> bs[pos + 1] == 0x01 && pos + 3 <= bs.len() && bs[pos + 2]
            == spec_err_byte(e) && spec_encode_login_result(rv).len() == 3,
{
    lemma_prefix_index(bs, pos, spec_encode_login_result(rv), 0);
    lemma_prefix_index(bs, pos, spec_encode_login_result(rv), 1);
    match rv {
        Ok(sv) => {
            lemma_prefix_concat(bs, pos, seq![0x82u8, 0x00u8], spec_encode_text(sv.token));
        },
        Err(e) => {
            lemma_prefix_index(bs, pos, spec_encode_login_result(rv), 2);
        },
    }
}

/// How a logout outcome's wire form begins.
proof fn lemma_logout_result_prefix(bs: Seq<u8>, pos: int, rv: Result<(), ResponseError>)
    requires
        prefix_at(bs, pos, spec_encode_logout_result(rv)),
    ensures
        pos + 2 <= bs.len(),
        rv matches Ok(_) ==> bs[pos] == 0x81 && bs[pos + 1] == 0x00 && spec_encode_logout_result(
            rv,
        ).len() == 2,
        rv matches Err(e) ==> bs[pos] == 0x82 && bs[pos + 1] == 0x01 && pos + 3 <= bs.len() && bs[
            pos + 2
        ] == spec_err_byte(e) && spec_encode_logout_result(rv).len() == 3,
{
    lemma_prefix_index(bs, pos, spec_encode_logout_result(rv), 0);
    lemma_prefix_index(bs, pos, spec_encode_logout_result(rv), 1);
    if rv is Err {
        lemma_prefix_index(bs, pos, spec_encode_logout_result(rv), 2);
    }
}

/// Parses one wire error byte.
fn parse_err(b: u8) -> (r: Option<ResponseError>)
    ensures
        r matches Some(e) ==> spec_err_byte(e) == b,
        forall|e: ResponseError| #![trigger spec_err_byte(e)] spec_err_byte(e) == b ==> r == Some(
            e,
        ),
{
    if b == 0x00 {
        Some(ResponseError::WrongUsernamePassword)
    } else if b == 0x01 {
        Some(ResponseError::Database)
    } else if b == 0x02 {
        Some(ResponseError::TokenInvalid)
    } else {
        None
    }
}

/// Parses one login outcome at `pos`.
fn parse_login_result(bytes: &[u8], pos: usize) -> (r: Option<
    (Result<Session, ResponseError>, usize),
>)
    requires
        pos <= bytes@.len(),
    ensures
        r matches Some((res, end)) ==> pos < end <= bytes@.len() && bytes@.subrange(
            pos as int,
            end as int,
        ) == spec_encode_login_result(login_result_view(res)),
        forall|rv: Result<SessionV, ResponseError>|
            #![trigger spec_encode_login_result(rv)]
            prefix_at(bytes@, pos as int, spec_encode_login_result(rv)) ==> (r matches Some(
                (res, end),
            ) && login_result_view(res) == rv && end as int == pos + spec_encode_login_result(
                rv,
            ).len()),
{
    let ghost bs = bytes@;
    let len = bytes.len();
    if len - pos < 2 {
        proof {
            assert forall|rv: Result<SessionV, ResponseError>|
                #![trigger spec_encode_login_result(rv)]
                !prefix_at(bs, pos as int, spec_encode_login_result(rv)) by {
                if prefix_at(bs, pos as int, spec_encode_login_result(rv)) {
                    lemma_login_result_prefix(bs, pos as int, rv);
                }
            }
        }
        return None;
    }
    let b0 = bytes[pos];
    let b1 = bytes[pos + 1];
    if b0 == 0x82 && b1 == 0x00 {
        match parse_text(bytes, pos + 2) {
            None => {
                proof {
                    assert forall|rv: Result<SessionV, ResponseError>|
                        #![trigger spec_encode_login_result(rv)]
                        !prefix_at(bs, pos as int, spec_encode_login_result(rv)) by {
                        if prefix_at(bs, pos as int, spec_encode_login_result(rv)) {
                            lemma_login_result_prefix(bs, pos as int, rv);
                        }
                    }
                }
                None
            },
            Some((tok, e1)) => {
                let res: Result<Session, ResponseError> = Ok(Session { token: tok });
                proof {
                    assert(bs.subrange(pos as int, pos + 2) =~= seq![0x82u8, 0x00u8]);
                    lemma_subrange_join(bs, pos as int, pos + 2, e1 as int);
                    assert(bs.subrange(pos as int, e1 as int) == spec_encode_login_result(
                        login_result_view(res),
                    ));
                    assert forall|rv: Result<SessionV, ResponseError>|
                        #![trigger spec_encode_login_result(rv)]
                        prefix_at(bs, pos as int, spec_encode_login_result(rv)) implies (
                    login_result_view(res) == rv && e1 as int == pos + spec_encode_login_result(
                        rv,
                    ).len()) by {
                        lemma_login_result_prefix(bs, pos as int, rv);
                    }
                }
                Some((res, e1))
            },
        }
    } else if b0 == 0x82 && b1 == 0x01 {
        if len - pos < 3 {
            proof {
                assert forall|rv: Result<SessionV, ResponseError>|
                    #![trigger spec_encode_login_result(rv)]
                    !prefix_at(bs, pos as int, spec_encode_login_result(rv)) by {
                    if prefix_at(bs, pos as int, spec_encode_login_result(rv)) {
                        lemma_login_result_prefix(bs, pos as int, rv);
                    }
                }
            }
            return None;
        }
        let b2 = bytes[pos + 2];
        match parse_err(b2) {
            None => {
                proof {
                    assert forall|rv: Result<SessionV, ResponseError>|
                        #![trigger spec_encode_login_result(rv)]
                        !prefix_at(bs, pos as int, spec_encode_login_result(rv)) by {
                        if prefix_at(bs, pos as int, spec_encode_login_result(rv)) {
                            lemma_login_result_prefix(bs, pos as int, rv);
                        }
                    }
                }
                None
            },
            Some(e) => {
                let res: Result<Session, ResponseError> = Err(e);
                proof {
                    assert(bs.subrange(pos as int, pos + 3) =~= seq![
                        0x82u8,
                        0x01u8,
                        spec_err_byte(e),
                    ]);
                    assert forall|rv: Result<SessionV, ResponseError>|
                        #![trigger spec_encode_login_result(rv)]
                        prefix_at(bs, pos as int, spec_encode_login_result(rv)) implies (
                    login_result_view(res) == rv && pos + 3 == pos + spec_encode_login_result(
                        rv,
                    ).len()) by {
                        lemma_login_result_prefix(bs, pos as int, rv);
                    }
                }
                Some((res, pos + 3))
            },
        }
    } else {
        proof {
            assert forall|rv: Result<SessionV, ResponseError>|
                #![trigger spec_encode_login_result(rv)]
                !prefix_at(bs, pos as int, spec_encode_login_result(rv)) by {
                if prefix_at(bs, pos as int, spec_encode_login_result(rv)) {
                    lemma_login_result_prefix(bs, pos as int, rv);
                }
            }
        }
        None
    }
}

/// Parses one logout outcome at `pos`.
fn parse_logout_result(bytes: &[u8], pos: usize) -> (r: Option<
    (Result<(), ResponseError>, usize),
>)
    requires
        pos <= bytes@.len(),
    ensures
        r matches Some((res, end)) ==> pos < end <= bytes@.len() && bytes@.subrange(
            pos as int,
            end as int,
        ) == spec_encode_logout_result(res),
        forall|rv: Result<(), ResponseError>|
            #![trigger spec_encode_logout_result(rv)]
            prefix_at(bytes@, pos as int, spec_encode_logout_result(rv)) ==> (r matches Some(
                (res, end),
            ) && res == rv && end as int == pos + spec_encode_logout_result(rv).len()),
{
    let ghost bs = bytes@;
    let len = bytes.len();
    if len - pos < 2 {
        proof {
            assert forall|rv: Result<(), ResponseError>|
                #![trigger spec_encode_logout_result(rv)]
                !prefix_at(bs, pos as int, spec_encode_logout_result(rv)) by {
                if prefix_at(bs, pos as int, spec_encode_logout_result(rv)) {
                    lemma_logout_result_prefix(bs, pos as int, rv);
                }
            }
        }
        return None;
    }
    let b0 = bytes[pos];
    let b1 = bytes[pos + 1];
    if b0 == 0x81 && b1 == 0x00 {
        let res: Result<(), ResponseError> = Ok(());
        proof {
            assert(bs.subrange(pos as int, pos + 2) =~= seq![0x81u8, 0x00u8]);
            assert forall|rv: Result<(), ResponseError>|
                #![trigger spec_encode_logout_result(rv)]
                prefix_at(bs, pos as int, spec_encode_logout_result(rv)) implies (res == rv && pos
                + 2 == pos + spec_encode_logout_result(rv).len()) by {
                lemma_logout_result_prefix(bs, pos as int, rv);
                match rv {
                    Ok(u) => {
                        assert(res == Ok::<(), ResponseError>(u));
                    },
                    Err(_) => {},
                }
            }
        }
        Some((res, pos + 2))
    } else if b0 == 0x82 && b1 == 0x01 {
        if len - pos < 3 {
            proof {
                assert forall|rv: Result<(), ResponseError>|
                    #![trigger spec_encode_logout_result(rv)]
                    !prefix_at(bs, pos as int, spec_encode_logout_result(rv)) by {
                    if prefix_at(bs, pos as int, spec_encode_logout_result(rv)) {
                        lemma_logout_result_prefix(bs, pos as int, rv);
                    }
                }
            }
            return None;
        }
        let b2 = bytes[pos + 2];
        match parse_err(b2) {
            None => {
                proof {
                    assert forall|rv: Result<(), ResponseError>|
                        #![trigger spec_encode_logout_result(rv)]
                        !prefix_at(bs, pos as int, spec_encode_logout_result(rv)) by {
                        if prefix_at(bs, pos as int, spec_encode_logout_result(rv)) {
                            lemma_logout_result_prefix(bs, pos as int, rv);
                        }
                    }
                }
                None
            },
            Some(e) => {
                let res: Result<(), ResponseError> = Err(e);
                proof {
                    assert(bs.subrange(pos as int, pos + 3) =~= seq![
                        0x82u8,
                        0x01u8,
                        spec_err_byte(e),
                    ]);
                    assert forall|rv: Result<(), ResponseError>|
                        #![trigger spec_encode_logout_result(rv)]
                        prefix_at(bs, pos as int, spec_encode_logout_result(rv)) implies (res == rv
                        && pos + 3 == pos + spec_encode_logout_result(rv).len()) by {
                        lemma_logout_result_prefix(bs, pos as int, rv);
                    }
                }
                Some((res, pos + 3))
            },
        }
    } else {
        proof {
            assert forall|rv: Result<(), ResponseError>|
                #![trigger spec_encode_logout_result(rv)]
                !prefix_at(bs, pos as int, spec_encode_logout_result(rv)) by {
                if prefix_at(bs, pos as int, spec_encode_logout_result(rv)) {
                    lemma_logout_result_prefix(bs, pos as int, rv);
                }
            }
        }
        None
    }
}

/// How a response's wire form begins, and where its outcome lies.
proof fn lemma_response_prefix(bs: Seq<u8>, pos: int, v: ResponseV)
    requires
        prefix_at(bs, pos, spec_encode_response(v)),
    ensures
        pos + 2 <= bs.len(),
        bs[pos] == 0x82,
        v matches ResponseV::Login(rv) ==> bs[pos + 1] == 0x00 && prefix_at(
            bs,
            pos + 2,
            spec_encode_login_result(rv),
        ) && spec_encode_response(v).len() == 2 + spec_encode_login_result(rv).len(),
        v matches ResponseV::Logout(rv) ==> bs[pos + 1] == 0x01 && prefix_at(
            bs,
            pos + 2,
            spec_encode_logout_result(rv),
        ) && spec_encode_response(v).len() == 2 + spec_encode_logout_result(rv).len(),
{
    lemma_prefix_index(bs, pos, spec_encode_response(v), 0);
    lemma_prefix_index(bs, pos, spec_encode_response(v), 1);
    match v {
        ResponseV::Login(rv) => {
            lemma_prefix_concat(bs, pos, seq![0x82u8, 0x00u8], spec_encode_login_result(rv));
        },
        ResponseV::Logout(rv) => {
            lemma_prefix_concat(bs, pos, seq![0x82u8, 0x01u8], spec_encode_logout_result(rv));
        },
    }
}

/// Decodes a whole message as a response.
///
/// Succeeds exactly on the byte strings that some response encodes to,
/// and then returns that response; in particular decoding the encoding
/// of any response gives that response back.
pub fn decode_response(bytes: &[u8]) -> (r: Option<Response>)
    ensures
        r matches Some(resp) ==> bytes@ == spec_encode_response(resp@),
        forall|v: ResponseV|
            #![trigger spec_encode_response(v)]
            bytes@ == spec_encode_response(v) ==> (r matches Some(resp) && resp@ == v),
{
    let ghost bs = bytes@;
    proof {
        assert(bs.subrange(0, bs.len() as int) =~= bs);
    }
    let len = bytes.len();
    if len < 2 {
        proof {
            assert forall|v: ResponseV|
                #![trigger spec_encode_response(v)]
                bs != spec_encode_response(v) by {
                if bs == spec_encode_response(v) {
                    lemma_response_prefix(bs, 0, v);
                }
            }
        }
        return None;
    }
    let b0 = bytes[0];
    let b1 = bytes[1];
    if b0 != 0x82 {
        proof {
            assert forall|v: ResponseV|
                #![trigger spec_encode_response(v)]
                bs != spec_encode_response(v) by {
                if bs == spec_encode_response(v) {
                    lemma_response_prefix(bs, 0, v);
                }
            }
        }
        return None;
    }
    if b1 == 0x00 {
        match parse_login_result(bytes, 2) {
            Some((res, end)) if end == len => {
                let resp = Response::Login(res);
                proof {
                    lemma_subrange_join(bs, 0, 2, end as int);
                    assert(bs.subrange(0, 2) =~= seq![0x82u8, 0x00u8]);
                    assert(bs == spec_encode_response(resp@));
                    assert forall|v: ResponseV|
                        #![trigger spec_encode_response(v)]
                        bs == spec_encode_response(v) implies resp@ == v by {
                        lemma_response_prefix(bs, 0, v);
                    }
                }
                Some(resp)
            },
            _ => {
                proof {
                    assert forall|v: ResponseV|
                        #![trigger spec_encode_response(v)]
                        bs != spec_encode_response(v) by {
                        if bs == spec_encode_response(v) {
                            lemma_response_prefix(bs, 0, v);
                        }
                    }
                }
                None
            },
        }
    } else if b1 == 0x01 {
        match parse_logout_result(bytes, 2) {
            Some((res, end)) if end == len => {
                let resp = Response::Logout(res);
                proof {
                    lemma_subrange_join(bs, 0, 2, end as int);
                    assert(bs.subrange(0, 2) =~= seq![0x82u8, 0x01u8]);
                    assert(bs == spec_encode_response(resp@));
                    assert forall|v: ResponseV|
                        #![trigger spec_encode_response(v)]
                        bs == spec_encode_response(v) implies resp@ == v by {
                        lemma_response_prefix(bs, 0, v);
                    }
                }
                Some(resp)
            },
            _ => {
                proof {
                    assert forall|v: ResponseV|
                        #![trigger spec_encode_response(v)]
                        bs != spec_encode_response(v) by {
                        if bs == spec_encode_response(v) {
                            lemma_response_prefix(bs, 0, v);
                        }
                    }
                }
                None
            },
        }
    } else {
        proof {
            assert forall|v: ResponseV|
                #![trigger spec_encode_response(v)]
                bs != spec_encode_response(v) by {
                if bs == spec_encode_response(v) {
                    lemma_response_prefix(bs, 0, v);
                }
            }
        }
        None
    }
}

} // verus!
