use vstd::prelude::*;

verus! {

/// The UTF-16 code units of one scalar value.
pub open spec fn utf16_units(c: u32) -> Seq<u16> {
    if c < 0x10000 {
        seq![c as u16]
    } else {
        seq![(0xD800 + ((c - 0x10000) / 0x400)) as u16, (0xDC00 + ((c - 0x10000) % 0x400)) as u16]
    }
}

/// The UTF-16 code units of a character sequence.
pub open spec fn utf16_of(s: Seq<char>) -> Seq<u16>
    decreases s.len(),
{
    if s.len() == 0 {
        seq![]
    } else {
        utf16_of(s.drop_last()) + utf16_units(s.last() as u32)
    }
}

/// Little-endian bytes of a sequence of code units.
pub open spec fn le_bytes(u: Seq<u16>) -> Seq<u8>
    decreases u.len(),
{
    if u.len() == 0 {
        seq![]
    } else {
        le_bytes(u.drop_last()) + seq![(u.last() % 256) as u8, (u.last() / 256) as u8]
    }
}

/// The clipboard form of a text: byte order mark, UTF-16LE units, two zero bytes.
pub open spec fn clipboard_bytes(s: Seq<char>) -> Seq<u8> {
    seq![0xFFu8, 0xFEu8] + le_bytes(utf16_of(s)) + seq![0u8, 0u8]
}

/// Relies on str::chars: the characters of the text, in order.
#[verifier::external_body]
pub(crate) fn chars_of(s: &str) -> (r: Vec<char>)
    ensures
        r@ == s@,
{
    s.chars().collect()
}

fn push_unit(v: &mut Vec<u8>, u: u16)
    ensures
        final(v)@ == old(v)@ + seq![(u % 256) as u8, (u / 256) as u8],
{
    v.push((u % 256) as u8);
    v.push((u / 256) as u8);
}

/// Encodes a text for the clipboard: a byte order mark, the text in
/// UTF-16LE, and two zero bytes.
pub fn utf8_to_utf16le_bytes(src: &str) -> (r: Vec<u8>)
    ensures
        r@ == clipboard_bytes(src@),
{
    let cs = chars_of(src);
    let mut v: Vec<u8> = Vec::new();
    v.push(0xFFu8);
    v.push(0xFEu8);
    let mut i: usize = 0;
    while i < cs.len()
        invariant
            i <= cs@.len(),
            cs@ == src@,
            v@ == seq![0xFFu8, 0xFEu8] + le_bytes(utf16_of(cs@.subrange(0, i as int))),
        decreases cs@.len() - i,
    {
        let c = cs[i] as u32;
        let ghost before = utf16_of(cs@.subrange(0, i as int));
        if c < 0x10000 {
            push_unit(&mut v, c as u16);
        } else {
            let hi = (0xD800 + (c - 0x10000) / 0x400) as u16;
            let lo = (0xDC00 + (c - 0x10000) % 0x400) as u16;
            push_unit(&mut v, hi);
            proof {
                assert(before.push(hi).drop_last() == before);
                assert(le_bytes(before.push(hi)) == le_bytes(before) + seq![(hi % 256) as u8, (hi / 256) as u8]);
            }
            push_unit(&mut v, lo);
            proof {
                assert(before.push(hi).push(lo).drop_last() == before.push(hi));
                assert(le_bytes(before.push(hi).push(lo)) == le_bytes(before.push(hi)) + seq![(lo % 256) as u8, (lo / 256) as u8]);
            }
        }
        proof {
            let next = cs@.subrange(0, i + 1);
            assert(next.drop_last() == cs@.subrange(0, i as int));
            assert(next.last() == cs@[i as int]);
            let units = utf16_units(c);
            if c < 0x10000 {
                assert(before + units == before.push(c as u16));
                assert(before.push(c as u16).drop_last() == before);
                assert(le_bytes(before.push(c as u16)) == le_bytes(before) + seq![((c as u16) % 256) as u8, ((c as u16) / 256) as u8]);
            } else {
                let hi = (0xD800 + (c - 0x10000) / 0x400) as u16;
                let lo = (0xDC00 + (c - 0x10000) % 0x400) as u16;
                assert(before + units == before.push(hi).push(lo));
            }
        }
        i = i + 1;
    }
    proof {
        assert(cs@.subrange(0, cs@.len() as int) == cs@);
    }
    v.push(0u8);
    v.push(0u8);
    v
}

} // verus!
