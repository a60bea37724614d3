use vstd::prelude::*;
use vstd::std_specs::iter::IteratorSpec;

verus! {

/// The UTF-16 encoding of one character: one code unit inside the basic
/// multilingual plane, a surrogate pair outside it.
pub open spec fn utf16_of_char(c: char) -> Seq<u16> {
    if (c as int) < 0x10000 {
        seq![c as u16]
    } else {
        let v = c as int - 0x10000;
        seq![(0xD800 + v / 0x400) as u16, (0xDC00 + v % 0x400) as u16]
    }
}

/// The UTF-16 encoding of a string.
pub open spec fn utf16_encode(s: Seq<char>) -> Seq<u16>
    decreases s.len(),
{
    if s.len() == 0 {
        seq![]
    } else {
        utf16_encode(s.drop_last()) + utf16_of_char(s.last())
    }
}

/// Decoding the code units of a character gives the character back. Below
/// 0x10000 a character is one unit equal to it, which is no surrogate; above, it
/// is a high surrogate (0xD800..0xDBFF) followed by a low surrogate
/// (0xDC00..0xDFFF), whose ten-bit payloads make up the character's offset from
/// 0x10000.
pub proof fn lemma_utf16_decodes(c: char)
    ensures
        (c as int) < 0x10000 ==> {
            let u = utf16_of_char(c);
            &&& u.len() == 1
            &&& u[0] == c as int
            &&& !(0xD800 <= u[0] < 0xE000)
        },
        (c as int) >= 0x10000 ==> {
            let u = utf16_of_char(c);
            &&& u.len() == 2
            &&& 0xD800 <= u[0] < 0xDC00
            &&& 0xDC00 <= u[1] < 0xE000
            &&& 0x10000 + (u[0] - 0xD800) * 0x400 + (u[1] - 0xDC00) == c as int
        },
{
    let x = c as int;
    assert(0 <= x <= 0x10FFFF);
    assert(x < 0xD800 || x >= 0xE000);
    if x >= 0x10000 {
        let v = x - 0x10000;
        assert(v == (v / 0x400) * 0x400 + v % 0x400) by (nonlinear_arith);
        assert(0 <= v / 0x400 < 0x400) by (nonlinear_arith)
            requires 0 <= v <= 0xFFFFF;
        assert(0 <= v % 0x400 < 0x400) by (nonlinear_arith);
    }
}

/// Two characters with the same code units are the same character.
pub proof fn lemma_utf16_of_char_injective(a: char, b: char)
    requires
        utf16_of_char(a) == utf16_of_char(b),
    ensures
        a == b,
{
    lemma_utf16_decodes(a);
    lemma_utf16_decodes(b);
    assert(utf16_of_char(a).len() == utf16_of_char(b).len());
    assert(a as int == b as int);
}

/// Strings with the same UTF-16 encoding are the same string: decoding the
/// encoding gives the string back.
pub proof fn lemma_utf16_encode_injective(s: Seq<char>, t: Seq<char>)
    requires
        utf16_encode(s) == utf16_encode(t),
    ensures
        s == t,
    decreases s.len() + t.len(),
{
    if s.len() == 0 || t.len() == 0 {
        if s.len() > 0 {
            lemma_utf16_decodes(s.last());
        }
        if t.len() > 0 {
            lemma_utf16_decodes(t.last());
        }
        assert(s =~= t);
    } else {
        let us = utf16_of_char(s.last());
        let ut = utf16_of_char(t.last());
        let e = utf16_encode(s);
        lemma_utf16_decodes(s.last());
        lemma_utf16_decodes(t.last());
        // the last unit tells whether the last character took one unit or two
        assert(e.last() == us.last());
        assert(e.last() == ut.last());
        assert(us.len() == ut.len());
        let k = e.len() - us.len();
        assert(utf16_encode(s.drop_last()) =~= e.take(k));
        assert(utf16_encode(t.drop_last()) =~= e.take(k));
        assert(us =~= e.skip(k));
        assert(ut =~= e.skip(k));
        lemma_utf16_of_char_injective(s.last(), t.last());
        lemma_utf16_encode_injective(s.drop_last(), t.drop_last());
        assert(s =~= s.drop_last().push(s.last()));
        assert(t =~= t.drop_last().push(t.last()));
    }
}

/// Appends the UTF-16 code units of `c` to `units`.
fn push_utf16(units: &mut Vec<u16>, c: char)
    ensures
        final(units)@ == old(units)@ + utf16_of_char(c),
{
    let v = c as u32;
    if v < 0x10000 {
        units.push(v as u16);
        proof {
            assert(final(units)@ =~= old(units)@ + utf16_of_char(c));
        }
    } else {
        let w = v - 0x10000;
        units.push((0xD800 + w / 0x400) as u16);
        units.push((0xDC00 + w % 0x400) as u16);
        proof {
            assert(final(units)@ =~= old(units)@ + utf16_of_char(c));
        }
    }
}

/// Encodes `s` as UTF-16: each character's code unit, or its surrogate pair, in
/// order.
pub fn encode_utf16(s: &str) -> (r: Vec<u16>)
    ensures
        r@ == utf16_encode(s@),
{
    broadcast use vstd::string::axiom_spec_iter, vstd::string::next_postcondition;

    let mut units: Vec<u16> = Vec::new();
    let mut chars = s.chars();
    let ghost total = s@;
    let ghost mut done: int = 0;
    proof {
        assert(total.take(0) =~= Seq::<char>::empty());
        assert(total.skip(0) =~= total);
    }
    loop
        invariant_except_break
            0 <= done <= total.len(),
            chars.remaining() == total.skip(done),
            units@ == utf16_encode(total.take(done)),
        ensures
            units@ == utf16_encode(total),
        decreases total.len() - done,
    {
        let ghost before = chars;
        match chars.next() {
            Some(c) => {
                proof {
                    assert(before.remaining().len() > 0);
                    assert(c == total[done]);
                    assert(total.take(done + 1).drop_last() =~= total.take(done));
                    assert(total.skip(done).drop_first() =~= total.skip(done + 1));
                }
                push_utf16(&mut units, c);
                proof {
                    done = done + 1;
                }
            },
            None => {
                proof {
                    assert(total.take(done) =~= total);
                }
                break;
            },
        }
    }
    units
}

} // verus!
