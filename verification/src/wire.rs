//! Canonical bytes: little-endian integers and length-prefixed texts.
use vstd::prelude::*;
use vstd::utf8::encode_utf8;

verus! {

/// The `width` lowest bytes of `x`, the lowest first.
pub open spec fn le_bytes(x: nat, width: nat) -> Seq<u8>
    decreases width,
{
    if width == 0 {
        Seq::empty()
    } else {
        seq![(x % 256) as u8] + le_bytes(x / 256, (width - 1) as nat)
    }
}

/// A text as its length in bytes, in four bytes, and its bytes.
pub open spec fn text_field(s: Seq<char>) -> Seq<u8> {
    le_bytes(encode_utf8(s).len(), 4) + encode_utf8(s)
}

/// Whether the length of a text fits in its four bytes.
pub open spec fn fits_field(s: Seq<char>) -> bool {
    encode_utf8(s).len() <= u32::MAX
}

/// Append the `width` lowest bytes of `x`.
pub fn append_le(buf: &mut Vec<u8>, x: u64, width: usize)
    ensures
        final(buf)@ == old(buf)@ + le_bytes(x as nat, width as nat),
{
    let mut rest: u64 = x;
    let mut i: usize = 0;
    let ghost whole = le_bytes(x as nat, width as nat);
    assert(buf@ + whole == old(buf)@ + whole);
    while i < width
        invariant
            i <= width,
            buf@ + le_bytes(rest as nat, (width - i) as nat) == old(buf)@ + whole,
        decreases width - i,
    {
        let ghost before = buf@;
        let ghost tail = le_bytes((rest / 256) as nat, (width - i - 1) as nat);
        buf.push((rest % 256) as u8);
        assert(before + (seq![(rest % 256) as u8] + tail) == buf@ + tail);
        rest = rest / 256;
        i += 1;
    }
    assert(buf@ + Seq::<u8>::empty() == buf@);
}

/// Append bytes.
pub fn append_bytes(buf: &mut Vec<u8>, bytes: &[u8])
    ensures
        final(buf)@ == old(buf)@ + bytes@,
{
    let mut i: usize = 0;
    assert(buf@ == old(buf)@ + bytes@.take(0));
    while i < bytes.len()
        invariant
            i <= bytes@.len(),
            buf@ == old(buf)@ + bytes@.take(i as int),
        decreases bytes@.len() - i,
    {
        buf.push(bytes[i]);
        assert(bytes@.take(i as int).push(bytes@[i as int]) == bytes@.take(i + 1));
        i += 1;
    }
    assert(bytes@.take(bytes@.len() as int) == bytes@);
}

/// Append a text with its length in front. Of a length beyond four bytes the lowest four count.
pub fn append_str(buf: &mut Vec<u8>, s: &str)
    ensures
        final(buf)@ == old(buf)@ + text_field(s@),
{
    let bytes = s.as_bytes();
    append_le(buf, bytes.len() as u64, 4);
    append_bytes(buf, bytes);
    assert(old(buf)@ + le_bytes(bytes@.len(), 4) + bytes@ == old(buf)@ + text_field(s@));
}

/// `le_bytes` has the given width and tells numbers below 256 to its power apart.
pub proof fn lemma_le_bytes_injective(x: nat, y: nat, width: nat)
    requires
        x < vstd::arithmetic::power::pow(256, width),
        y < vstd::arithmetic::power::pow(256, width),
        le_bytes(x, width) == le_bytes(y, width),
    ensures
        x == y,
    decreases width,
{
    reveal(vstd::arithmetic::power::pow);
    if width > 0 {
        let w = (width - 1) as nat;
        lemma_le_bytes_len(x / 256, w);
        lemma_le_bytes_len(y / 256, w);
        let a = le_bytes(x, width);
        let b = le_bytes(y, width);
        assert(a[0] == (x % 256) as u8);
        assert(b[0] == (y % 256) as u8);
        assert(a.skip(1) == le_bytes(x / 256, w));
        assert(b.skip(1) == le_bytes(y / 256, w));
        let p = vstd::arithmetic::power::pow(256, w);
        assert(vstd::arithmetic::power::pow(256, width) == 256 * p);
        lemma_le_bytes_injective(x / 256, y / 256, w);
    }
}

pub proof fn lemma_le_bytes_len(x: nat, width: nat)
    ensures
        le_bytes(x, width).len() == width,
    decreases width,
{
    if width > 0 {
        lemma_le_bytes_len(x / 256, (width - 1) as nat);
    }
}

pub proof fn lemma_pow256()
    ensures
        vstd::arithmetic::power::pow(256, 4) == 0x1_0000_0000,
        vstd::arithmetic::power::pow(256, 8) == 0x1_0000_0000_0000_0000,
{
    reveal_with_fuel(vstd::arithmetic::power::pow, 9);
}

/// From a text field followed by anything, the text and what follows can be told.
pub proof fn lemma_text_field_prefix(a: Seq<char>, b: Seq<char>, x: Seq<u8>, y: Seq<u8>)
    requires
        fits_field(a),
        fits_field(b),
        text_field(a) + x == text_field(b) + y,
    ensures
        a == b,
        x == y,
{
    let p = encode_utf8(a);
    let q = encode_utf8(b);
    let l = text_field(a) + x;
    let r = text_field(b) + y;
    lemma_le_bytes_len(p.len(), 4);
    lemma_le_bytes_len(q.len(), 4);
    assert(l.take(4) == le_bytes(p.len(), 4));
    assert(r.take(4) == le_bytes(q.len(), 4));
    lemma_pow256();
    lemma_le_bytes_injective(p.len(), q.len(), 4);
    let n = p.len() as int;
    assert(l.subrange(4, 4 + n) == p);
    assert(r.subrange(4, 4 + n) == q);
    assert(l.skip(4 + n) == x);
    assert(r.skip(4 + n) == y);
    vstd::utf8::encode_utf8_decode_utf8(a);
    vstd::utf8::encode_utf8_decode_utf8(b);
}

/// From a fixed-width integer followed by anything, the integer and what follows can be told.
pub proof fn lemma_u64_prefix(a: u64, b: u64, x: Seq<u8>, y: Seq<u8>)
    requires
        le_bytes(a as nat, 8) + x == le_bytes(b as nat, 8) + y,
    ensures
        a == b,
        x == y,
{
    let l = le_bytes(a as nat, 8) + x;
    let r = le_bytes(b as nat, 8) + y;
    lemma_le_bytes_len(a as nat, 8);
    lemma_le_bytes_len(b as nat, 8);
    assert(l.take(8) == le_bytes(a as nat, 8));
    assert(r.take(8) == le_bytes(b as nat, 8));
    lemma_pow256();
    lemma_le_bytes_injective(a as nat, b as nat, 8);
    assert(l.skip(8) == x);
    assert(r.skip(8) == y);
}

/// The value of bytes, the lowest first.
pub open spec fn le_value(bytes: Seq<u8>) -> nat
    decreases bytes.len(),
{
    if bytes.len() == 0 {
        0
    } else {
        bytes[0] as nat + 256 * le_value(bytes.skip(1))
    }
}

/// The bytes of a number have the given width and the value of the number, as far as they reach.
pub proof fn law_bytes_have_the_value(x: nat, width: nat)
    requires
        x < vstd::arithmetic::power::pow(256, width),
    ensures
        le_bytes(x, width).len() == width,
        le_value(le_bytes(x, width)) == x,
    decreases width,
{
    reveal(vstd::arithmetic::power::pow);
    lemma_le_bytes_len(x, width);
    if width > 0 {
        let w = (width - 1) as nat;
        assert(vstd::arithmetic::power::pow(256, width) == 256 * vstd::arithmetic::power::pow(
            256,
            w,
        ));
        law_bytes_have_the_value(x / 256, w);
        assert(le_bytes(x, width).skip(1) == le_bytes(x / 256, w));
        assert(le_bytes(x, width)[0] == (x % 256) as u8);
    }
}

/// A text is written as four bytes that say how many bytes follow, and its bytes in UTF-8.
pub proof fn law_text_follows_its_length(s: Seq<char>)
    requires
        fits_field(s),
    ensures
        text_field(s).len() == 4 + encode_utf8(s).len(),
        le_value(text_field(s).take(4)) == encode_utf8(s).len(),
        text_field(s).skip(4) == encode_utf8(s),
{
    lemma_pow256();
    let n = encode_utf8(s).len();
    law_bytes_have_the_value(n, 4);
    assert(text_field(s).take(4) == le_bytes(n, 4));
    assert(text_field(s).skip(4) == encode_utf8(s));
}

} // verus!
