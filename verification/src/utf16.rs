use vstd::prelude::*;
use crate::text::chars_of;

verus! {

/// Whether `code` is a Unicode scalar value: a code point that is no
/// surrogate.
pub open spec fn is_scalar(code: int) -> bool {
    (0 <= code < 0xD800) || (0xE000 <= code <= 0x10FFFF)
}

/// Turns a code point into a character.
///
/// Stands for `char::from_u32` of the standard library, which gives the
/// character of a Unicode scalar value and `None` for every other number.
pub assume_specification[ char::from_u32 ](code: u32) -> (c: Option<char>)
    ensures
        is_scalar(code as int) ==> c == Some(code as char),
        !is_scalar(code as int) ==> c is None,
;

/// The bytes of one UTF-16 unit, high byte first.
pub open spec fn unit(value: int) -> Seq<u8> {
    seq![(value / 256) as u8, (value % 256) as u8]
}

/// The UTF-16 form of one character, high bytes first: one unit, or a pair
/// of surrogates for a character beyond the basic plane.
pub open spec fn char_units(c: char) -> Seq<u8> {
    let code = c as u32 as int;
    if code < 0x10000 {
        unit(code)
    } else {
        unit(0xD800 + (code - 0x10000) / 1024) + unit(0xDC00 + (code - 0x10000) % 1024)
    }
}

/// The UTF-16 form of `text`, high bytes first.
pub open spec fn utf16_bytes(text: Seq<char>) -> Seq<u8>
    decreases text.len(),
{
    if text.len() == 0 {
        Seq::<u8>::empty()
    } else {
        char_units(text[0]) + utf16_bytes(text.drop_first())
    }
}

/// The text that `bytes` spell in UTF-16, high bytes first; `None` where
/// they end within a unit or hold a surrogate out of place.
pub open spec fn utf16_text(bytes: Seq<u8>) -> Option<Seq<char>>
    decreases bytes.len(),
{
    if bytes.len() == 0 {
        Some(Seq::<char>::empty())
    } else if bytes.len() < 2 {
        None
    } else {
        let first = bytes[0] as int * 256 + bytes[1] as int;
        if first < 0xD800 || first >= 0xE000 {
            match utf16_text(bytes.skip(2)) {
                Some(rest) => Some(seq![first as u32 as char] + rest),
                None => None,
            }
        } else if first >= 0xDC00 || bytes.len() < 4 {
            None
        } else {
            let second = bytes[2] as int * 256 + bytes[3] as int;
            if second < 0xDC00 || second >= 0xE000 {
                None
            } else {
                let code = 0x10000 + (first - 0xD800) * 1024 + (second - 0xDC00);
                match utf16_text(bytes.skip(4)) {
                    Some(rest) => Some(seq![code as u32 as char] + rest),
                    None => None,
                }
            }
        }
    }
}

/// The UTF-16 form of a text with one more character at its end.
pub proof fn lemma_utf16_bytes_push(text: Seq<char>, c: char)
    ensures
        utf16_bytes(text.push(c)) == utf16_bytes(text) + char_units(c),
    decreases text.len(),
{
    let longer = text.push(c);
    if text.len() == 0 {
        assert(longer.drop_first() == Seq::<char>::empty());
        assert(utf16_bytes(longer.drop_first()) == Seq::<u8>::empty());
        assert(utf16_bytes(longer) == char_units(c) + Seq::<u8>::empty());
        assert(utf16_bytes(longer) =~= utf16_bytes(text) + char_units(c));
    } else {
        lemma_utf16_bytes_push(text.drop_first(), c);
        assert(longer.drop_first() == text.drop_first().push(c));
        assert(utf16_bytes(longer) =~= utf16_bytes(text) + char_units(c));
    }
}

/// The UTF-16 form has an even number of bytes.
pub proof fn lemma_utf16_bytes_even(text: Seq<char>)
    ensures
        utf16_bytes(text).len() % 2 == 0,
        utf16_bytes(text).len() <= 4 * text.len(),
    decreases text.len(),
{
    if text.len() > 0 {
        lemma_utf16_bytes_even(text.drop_first());
    }
}

/// Law: a text is read back from its UTF-16 form.
pub proof fn lemma_utf16_round_trip(text: Seq<char>)
    ensures
        utf16_text(utf16_bytes(text)) == Some(text),
    decreases text.len(),
{
    if text.len() > 0 {
        let c = text[0];
        let code = c as u32 as int;
        let rest = text.drop_first();
        let bytes = utf16_bytes(text);
        lemma_utf16_round_trip(rest);
        vstd::utf8::char_is_scalar(c);
        vstd::utf8::char_u32_cast(c, c as u32);
        assert(is_scalar(code));
        if code < 0x10000 {
            assert(bytes.skip(2) =~= utf16_bytes(rest));
            assert(bytes[0] as int * 256 + bytes[1] as int == code);
            assert(code as u32 as char == c);
        } else {
            let high = 0xD800 + (code - 0x10000) / 1024;
            let low = 0xDC00 + (code - 0x10000) % 1024;
            assert(bytes.skip(4) =~= utf16_bytes(rest));
            assert(bytes[0] as int * 256 + bytes[1] as int == high);
            assert(bytes[2] as int * 256 + bytes[3] as int == low);
            assert(0x10000 + (high - 0xD800) * 1024 + (low - 0xDC00) == code);
            assert(code as u32 as char == c);
        }
        assert(seq![c] + rest =~= text);
    } else {
        assert(utf16_bytes(text).len() == 0);
    }
}

/// The UTF-16 form of `text`, high bytes first.
pub fn encode_utf16(text: &str) -> (bytes: Vec<u8>)
    ensures
        bytes@ == utf16_bytes(text@),
{
    let chars = chars_of(text);
    let mut bytes: Vec<u8> = Vec::new();
    let mut i: usize = 0;
    proof {
        assert(chars@.take(0) == Seq::<char>::empty());
    }
    while i < chars.len()
        invariant
            i <= chars.len(),
            chars@ == text@,
            bytes@ == utf16_bytes(chars@.take(i as int)),
        decreases chars.len() - i,
    {
        let code = chars[i] as u32;
        proof {
            vstd::utf8::char_is_scalar(chars@[i as int]);
            lemma_utf16_bytes_push(chars@.take(i as int), chars@[i as int]);
            assert(chars@.take(i + 1) == chars@.take(i as int).push(chars@[i as int]));
        }
        let ghost before = bytes@;
        if code < 0x10000 {
            bytes.push((code / 256) as u8);
            bytes.push((code % 256) as u8);
            proof {
                assert(bytes@ == before + unit(code as int));
            }
        } else {
            let high = 0xD800 + (code - 0x10000) / 1024;
            let low = 0xDC00 + (code - 0x10000) % 1024;
            bytes.push((high / 256) as u8);
            bytes.push((high % 256) as u8);
            bytes.push((low / 256) as u8);
            bytes.push((low % 256) as u8);
            proof {
                assert(bytes@ == before + (unit(high as int) + unit(low as int)));
            }
        }
        i += 1;
    }
    proof {
        assert(chars@.take(chars.len() as int) == chars@);
    }
    bytes
}

/// Reads the text that the `count` bytes of `bytes` from `at` on spell in
/// UTF-16, high bytes first.
pub fn decode_utf16(bytes: &Vec<u8>, at: usize, count: usize) -> (text: Option<String>)
    requires
        at + count <= bytes.len(),
    ensures
        match text {
            Some(t) => utf16_text(bytes@.subrange(at as int, at + count)) == Some(t@),
            None => utf16_text(bytes@.subrange(at as int, at + count)) is None,
        },
{
    let ghost part = bytes@.subrange(at as int, at + count);
    let mut text = String::new();
    let mut i: usize = 0;
    proof {
        assert(part.skip(0) == part);
        assert(text@ + utf16_text(part)->Some_0 =~= utf16_text(part)->Some_0);
    }
    while i < count
        invariant
            i <= count,
            at + count <= bytes.len(),
            part == bytes@.subrange(at as int, at + count),
            match utf16_text(part.skip(i as int)) {
                Some(rest) => utf16_text(part) == Some(text@ + rest),
                None => utf16_text(part) is None,
            },
        decreases count - i,
    {
        let ghost rest = part.skip(i as int);
        if count - i < 2 {
            return None;
        }
        let first: u32 = bytes[at + i] as u32 * 256 + bytes[at + i + 1] as u32;
        proof {
            assert(rest[0] == bytes@[at + i]);
            assert(rest[1] == bytes@[at + i + 1]);
            assert(rest.skip(2) == part.skip(i + 2));
        }
        if first < 0xD800 || first >= 0xE000 {
            match char::from_u32(first) {
                Some(c) => {
                    let ghost before = text@;
                    text.push(c);
                    proof {
                        let tail = utf16_text(rest.skip(2));
                        if tail is Some {
                            assert(before.push(c) + tail->Some_0 =~= before + (seq![c]
                                + tail->Some_0));
                        }
                    }
                },
                None => {
                    return None;
                },
            }
            i += 2;
        } else {
            if first >= 0xDC00 || count - i < 4 {
                return None;
            }
            let second: u32 = bytes[at + i + 2] as u32 * 256 + bytes[at + i + 3] as u32;
            proof {
                assert(rest[2] == bytes@[at + i + 2]);
                assert(rest[3] == bytes@[at + i + 3]);
                assert(rest.skip(4) == part.skip(i + 4));
            }
            if second < 0xDC00 || second >= 0xE000 {
                return None;
            }
            let code: u32 = 0x10000 + (first - 0xD800) * 1024 + (second - 0xDC00);
            match char::from_u32(code) {
                Some(c) => {
                    let ghost before = text@;
                    text.push(c);
                    proof {
                        let tail = utf16_text(rest.skip(4));
                        if tail is Some {
                            assert(before.push(c) + tail->Some_0 =~= before + (seq![c]
                                + tail->Some_0));
                        }
                    }
                },
                None => {
                    return None;
                },
            }
            i += 4;
        }
    }
    proof {
        assert(part.skip(count as int).len() == 0);
        assert(text@ + Seq::<char>::empty() =~= text@);
    }
    Some(text)
}

} // verus!
