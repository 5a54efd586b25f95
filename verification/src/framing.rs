//! Parts put one behind the other so that they can be told apart again: before each part stands
//! its length.

use vstd::prelude::*;

verus! {

/// A length, seven bits to a byte and the lowest first; every byte but the last is 128 or more.
pub open spec fn length_mark(n: nat) -> Seq<u8>
    decreases n,
{
    if n < 128 {
        seq![n as u8]
    } else {
        seq![(128 + n % 128) as u8] + length_mark(n / 128)
    }
}

/// A part behind its length.
pub open spec fn framed(part: Seq<u8>) -> Seq<u8> {
    length_mark(part.len()) + part
}

/// A part that may be missing: a zero, or a one and the part behind its length.
pub open spec fn framed_if_any(part: Option<Seq<u8>>) -> Seq<u8> {
    match part {
        None => seq![0u8],
        Some(bytes) => seq![1u8] + framed(bytes),
    }
}

proof fn lemma_marks_are_told_apart(m: nat, x: Seq<u8>, n: nat, y: Seq<u8>)
    requires
        length_mark(m) + x == length_mark(n) + y,
    ensures
        m == n,
        x == y,
    decreases m,
{
    let s = length_mark(m) + x;
    let t = length_mark(n) + y;
    assert(s[0] == length_mark(m)[0]);
    assert(t[0] == length_mark(n)[0]);
    if m < 128 || n < 128 {
        assert(s.skip(1) =~= x);
        assert(t.skip(1) =~= y);
    } else {
        assert(s.skip(1) =~= length_mark(m / 128) + x);
        assert(t.skip(1) =~= length_mark(n / 128) + y);
        lemma_marks_are_told_apart(m / 128, x, n / 128, y);
    }
}

/// Where a part ends and what follows begins is plain from the bytes.
pub proof fn law_parts_are_told_apart(a: Seq<u8>, x: Seq<u8>, b: Seq<u8>, y: Seq<u8>)
    requires
        framed(a) + x == framed(b) + y,
    ensures
        a == b,
        x == y,
{
    assert(framed(a) + x =~= length_mark(a.len()) + (a + x));
    assert(framed(b) + y =~= length_mark(b.len()) + (b + y));
    lemma_marks_are_told_apart(a.len(), a + x, b.len(), b + y);
    assert((a + x).take(a.len() as int) =~= a);
    assert((b + y).take(b.len() as int) =~= b);
    assert((a + x).skip(a.len() as int) =~= x);
    assert((b + y).skip(b.len() as int) =~= y);
}

/// So it is of a part that may be missing.
pub proof fn law_missing_parts_are_told_apart(
    a: Option<Seq<u8>>,
    x: Seq<u8>,
    b: Option<Seq<u8>>,
    y: Seq<u8>,
)
    requires
        framed_if_any(a) + x == framed_if_any(b) + y,
    ensures
        a == b,
        x == y,
{
    let s = framed_if_any(a) + x;
    let t = framed_if_any(b) + y;
    assert(s[0] == framed_if_any(a)[0]);
    assert(t[0] == framed_if_any(b)[0]);
    match (a, b) {
        (Some(p), Some(q)) => {
            assert(s.skip(1) =~= framed(p) + x);
            assert(t.skip(1) =~= framed(q) + y);
            law_parts_are_told_apart(p, x, q, y);
        },
        _ => {
            assert(s.skip(1) =~= x || a is Some);
            assert(t.skip(1) =~= y || b is Some);
        },
    }
}

/// A text is known by its bytes.
pub proof fn lemma_texts_are_told_apart(a: Seq<char>, b: Seq<char>)
    requires
        vstd::utf8::encode_utf8(a) == vstd::utf8::encode_utf8(b),
    ensures
        a == b,
{
    vstd::utf8::encode_utf8_decode_utf8(a);
    vstd::utf8::encode_utf8_decode_utf8(b);
}

fn add_mark(out: &mut Vec<u8>, n: usize)
    ensures
        final(out)@ == old(out)@ + length_mark(n as nat),
{
    let ghost whole = out@ + length_mark(n as nat);
    let mut rest: usize = n;
    while rest >= 128
        invariant
            out@ + length_mark(rest as nat) == whole,
        decreases rest,
    {
        let ghost before = out@;
        let low: u8 = (rest % 128) as u8;
        out.push(128 + low);
        assert(out@ + length_mark((rest / 128) as nat) =~= before + length_mark(rest as nat));
        rest = rest / 128;
    }
    let ghost before = out@;
    out.push(rest as u8);
    assert(out@ =~= before + length_mark(rest as nat));
}

fn add_bytes(out: &mut Vec<u8>, bytes: &[u8])
    ensures
        final(out)@ == old(out)@ + bytes@,
{
    let ghost start = out@;
    let mut i: usize = 0;
    assert(start + bytes@.take(0) =~= start);
    while i < bytes.len()
        invariant
            i <= bytes@.len(),
            out@ == start + bytes@.take(i as int),
        decreases bytes@.len() - i,
    {
        out.push(bytes[i]);
        i = i + 1;
        assert(out@ =~= start + bytes@.take(i as int));
    }
    assert(bytes@.take(i as int) =~= bytes@);
}

/// Appends a part behind its length.
pub(crate) fn add_framed(out: &mut Vec<u8>, part: &[u8])
    ensures
        final(out)@ == old(out)@ + framed(part@),
{
    let ghost start = out@;
    add_mark(out, part.len());
    add_bytes(out, part);
    assert(out@ =~= start + framed(part@));
}

/// Appends a part that is there.
pub(crate) fn add_present(out: &mut Vec<u8>, part: &[u8])
    ensures
        final(out)@ == old(out)@ + framed_if_any(Some(part@)),
{
    let ghost start = out@;
    out.push(1u8);
    add_framed(out, part);
    assert(out@ =~= start + framed_if_any(Some(part@)));
}

/// Appends that a part is missing.
pub(crate) fn add_missing(out: &mut Vec<u8>)
    ensures
        final(out)@ == old(out)@ + framed_if_any(None),
{
    let ghost start = out@;
    out.push(0u8);
    assert(out@ =~= start + framed_if_any(None));
}

} // verus!
