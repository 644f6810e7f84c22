use vstd::prelude::*;
use crate::bytes::{read_uint, uint_at};
use crate::error::DecodeError;
use crate::plist::{
    item_views, keys_unique, lemma_array_view, lemma_dictionary_view, member_views, Plist,
    PropertyListDocument, PropertyListValue,
};
use crate::utf16::{decode_utf16, utf16_text};

verus! {

/// The eight bytes with which a binary property list begins.
pub open spec fn magic() -> Seq<u8> {
    seq![0x62u8, 0x70u8, 0x6Cu8, 0x69u8, 0x73u8, 0x74u8, 0x30u8, 0x30u8]
}

/// The length of the trailer that ends a binary property list.
pub const TRAILER_LEN: usize = 32;

/// How deep the values of a list may nest for the list to be read.
pub const DEPTH_LIMIT: usize = 512;

/// How a list lays out its objects: the width of a reference to an object
/// and the place of each object, by its number.
pub ghost struct Layout {
    pub ref_width: int,
    pub offsets: Seq<nat>,
}

/// The number of bytes of an integer whose marker names `exponent`.
pub open spec fn int_width(exponent: int) -> int {
    if exponent == 0 {
        1
    } else if exponent == 1 {
        2
    } else if exponent == 2 {
        4
    } else {
        8
    }
}

/// The integer that `raw` stands for when read from `width` bytes: eight
/// bytes hold a number in two's complement, fewer bytes a number that is
/// not negative.
pub open spec fn signed(raw: nat, width: int) -> int {
    if width == 8 && raw >= 0x8000_0000_0000_0000 {
        raw - 0x1_0000_0000_0000_0000
    } else {
        raw as int
    }
}

/// The length that the object at `at` states and the place where its body
/// begins. Lengths up to 14 stand in the marker itself; a marker with 15
/// is followed by the length as an integer object.
pub open spec fn length_at(bytes: Seq<u8>, at: int) -> Result<(nat, int), DecodeError> {
    let low = bytes[at] % 16;
    if low < 15 {
        Ok((low as nat, at + 1))
    } else if at + 1 >= bytes.len() {
        Err(DecodeError::TruncatedData)
    } else {
        let marker = bytes[at + 1];
        if marker / 16 != 1 || marker % 16 > 3 {
            Err(DecodeError::Malformed)
        } else {
            let width = int_width((marker % 16) as int);
            if at + 2 + width > bytes.len() {
                Err(DecodeError::TruncatedData)
            } else {
                Ok((uint_at(bytes, at + 2, width), at + 2 + width))
            }
        }
    }
}

/// The text that `bytes` spell in ASCII; `None` where a byte is none.
pub open spec fn ascii_text(bytes: Seq<u8>) -> Option<Seq<char>> {
    if forall|i: int| 0 <= i < bytes.len() ==> bytes[i] < 128 {
        Some(Seq::new(bytes.len(), |i: int| bytes[i] as char))
    } else {
        None
    }
}

/// The `count` numbers of `width` bytes each that begin at `at`.
pub open spec fn refs_at(bytes: Seq<u8>, at: int, count: nat, width: int) -> Seq<nat> {
    Seq::new(count, |i: int| uint_at(bytes, at + i * width, width))
}

/// The numbers that a vector of references holds.
pub open spec fn ref_views(refs: Seq<u64>) -> Seq<nat> {
    Seq::new(refs.len(), |i: int| refs[i] as nat)
}

/// The integer whose object begins at `at`.
pub open spec fn integer_at(bytes: Seq<u8>, at: int) -> Result<Plist, DecodeError> {
    let marker = bytes[at];
    if marker % 16 > 3 {
        Err(DecodeError::Unsupported)
    } else {
        let width = int_width((marker % 16) as int);
        if at + 1 + width > bytes.len() {
            Err(DecodeError::TruncatedData)
        } else {
            Ok(Plist::Integer(signed(uint_at(bytes, at + 1, width), width)))
        }
    }
}

/// The data or the string whose object begins at `at`: bytes as they are,
/// a string in ASCII, or a string in UTF-16, whose length counts units of
/// two bytes.
pub open spec fn sized_at(bytes: Seq<u8>, at: int) -> Result<Plist, DecodeError> {
    let kind = bytes[at] / 16;
    match length_at(bytes, at) {
        Err(e) => Err(e),
        Ok((count, start)) => {
            let unit: int = if kind == 6 {
                2
            } else {
                1
            };
            if count > (bytes.len() - start) / unit {
                Err(DecodeError::TruncatedData)
            } else {
                let body = bytes.subrange(start, start + count * unit);
                if kind == 4 {
                    Ok(Plist::Data(body))
                } else {
                    let text = if kind == 5 {
                        ascii_text(body)
                    } else {
                        utf16_text(body)
                    };
                    match text {
                        Some(t) => Ok(Plist::String(t)),
                        None => Err(DecodeError::Malformed),
                    }
                }
            }
        },
    }
}

/// The value of object number `index`.
///
/// `fuel` bounds how deep references are followed: a list whose references
/// nest deeper than that is malformed, which a list with a cycle always is.
pub open spec fn read_object(bytes: Seq<u8>, layout: Layout, index: nat, fuel: nat) -> Result<
    Plist,
    DecodeError,
>
    decreases fuel, 0nat,
{
    if fuel == 0 || index >= layout.offsets.len() {
        Err(DecodeError::Malformed)
    } else if layout.offsets[index as int] >= bytes.len() {
        Err(DecodeError::TruncatedData)
    } else {
        let at = layout.offsets[index as int] as int;
        let marker = bytes[at];
        let kind = marker / 16;
        if kind == 0 {
            if marker == 8 {
                Ok(Plist::Boolean(false))
            } else if marker == 9 {
                Ok(Plist::Boolean(true))
            } else {
                Err(DecodeError::Unsupported)
            }
        } else if kind == 1 {
            integer_at(bytes, at)
        } else if kind == 2 || kind == 3 || kind == 8 {
            Err(DecodeError::Unsupported)
        } else if kind == 4 || kind == 5 || kind == 6 {
            sized_at(bytes, at)
        } else if kind == 10 {
            match length_at(bytes, at) {
                Err(e) => Err(e),
                Ok((count, start)) => if count > (bytes.len() - start) / layout.ref_width {
                    Err(DecodeError::TruncatedData)
                } else {
                    match read_all(
                        bytes,
                        layout,
                        refs_at(bytes, start, count, layout.ref_width),
                        (fuel - 1) as nat,
                    ) {
                        Err(e) => Err(e),
                        Ok(members) => Ok(Plist::Array(members)),
                    }
                },
            }
        } else if kind == 13 {
            match length_at(bytes, at) {
                Err(e) => Err(e),
                Ok((count, start)) => if count > (bytes.len() - start) / layout.ref_width {
                    Err(DecodeError::TruncatedData)
                } else {
                    let middle = start + count * layout.ref_width;
                    if count > (bytes.len() - middle) / layout.ref_width {
                        Err(DecodeError::TruncatedData)
                    } else {
                        match read_items(
                            bytes,
                            layout,
                            refs_at(bytes, start, count, layout.ref_width),
                            refs_at(bytes, middle, count, layout.ref_width),
                            (fuel - 1) as nat,
                        ) {
                            Err(e) => Err(e),
                            Ok(items) => if keys_unique(items) {
                                Ok(Plist::Dictionary(items))
                            } else {
                                Err(DecodeError::Malformed)
                            },
                        }
                    }
                },
            }
        } else {
            Err(DecodeError::Malformed)
        }
    }
}

/// The values of the objects that `refs` number, in their order; the first
/// failure among them where there is one.
pub open spec fn read_all(bytes: Seq<u8>, layout: Layout, refs: Seq<nat>, fuel: nat) -> Result<
    Seq<Plist>,
    DecodeError,
>
    decreases fuel, refs.len() + 1,
{
    if refs.len() == 0 {
        Ok(Seq::<Plist>::empty())
    } else {
        match read_all(bytes, layout, refs.drop_last(), fuel) {
            Err(e) => Err(e),
            Ok(before) => match read_object(bytes, layout, refs.last(), fuel) {
                Err(e) => Err(e),
                Ok(value) => Ok(before.push(value)),
            },
        }
    }
}

/// The items whose keys `keys` number and whose values `values` number,
/// in their order; the first failure among them where there is one. A key
/// that is no string is a failure of its own.
pub open spec fn read_items(
    bytes: Seq<u8>,
    layout: Layout,
    keys: Seq<nat>,
    values: Seq<nat>,
    fuel: nat,
) -> Result<Seq<(Seq<char>, Plist)>, DecodeError>
    decreases fuel, keys.len() + 1,
{
    if keys.len() == 0 {
        Ok(Seq::<(Seq<char>, Plist)>::empty())
    } else {
        match read_items(bytes, layout, keys.drop_last(), values.drop_last(), fuel) {
            Err(e) => Err(e),
            Ok(before) => match read_object(bytes, layout, keys.last(), fuel) {
                Err(e) => Err(e),
                Ok(Plist::String(key)) => match read_object(bytes, layout, values.last(), fuel) {
                    Err(e) => Err(e),
                    Ok(value) => Ok(before.push((key, value))),
                },
                Ok(_) => Err(DecodeError::Malformed),
            },
        }
    }
}

/// The property list that `bytes` hold.
///
/// The bytes begin with the header and end with the trailer, which names
/// the widths of offsets and references, the number of objects, the number
/// of the root object and the place of the table of offsets. The value is
/// that of the root object.
pub open spec fn decoded(bytes: Seq<u8>) -> Result<Plist, DecodeError> {
    if bytes.len() < 8 || bytes.subrange(0, 8) != magic() {
        Err(DecodeError::NotAPropertyList)
    } else if bytes.len() < 8 + TRAILER_LEN {
        Err(DecodeError::TruncatedData)
    } else {
        let end = bytes.len() - TRAILER_LEN;
        let offset_width = bytes[end + 6] as int;
        let ref_width = bytes[end + 7] as int;
        let count = uint_at(bytes, end + 8, 8);
        let top = uint_at(bytes, end + 16, 8);
        let table = uint_at(bytes, end + 24, 8);
        if offset_width < 1 || offset_width > 8 || ref_width < 1 || ref_width > 8 {
            Err(DecodeError::Malformed)
        } else if count == 0 || top >= count || table < 8 {
            Err(DecodeError::Malformed)
        } else if table > end || count > (end - table) / offset_width {
            Err(DecodeError::TruncatedData)
        } else {
            read_object(
                bytes,
                Layout { ref_width, offsets: refs_at(bytes, table as int, count, offset_width) },
                top,
                DEPTH_LIMIT as nat,
            )
        }
    }
}

/// The layout that a width and a vector of offsets stand for.
pub open spec fn layout_of(ref_width: usize, offsets: Seq<u64>) -> Layout {
    Layout { ref_width: ref_width as int, offsets: ref_views(offsets) }
}

/// `count` parts of `width` bytes fit into `room` bytes where `count` is at
/// most the quotient of the two.
pub proof fn lemma_span(count: int, room: int, width: int)
    requires
        width >= 1,
        room >= 0,
        0 <= count <= room / width,
    ensures
        count * width <= room,
        forall|i: int| 0 <= i < count ==> (#[trigger] (i * width)) + width <= count * width,
        forall|i: int| 0 <= i < count ==> 0 <= #[trigger] (i * width),
{
    vstd::arithmetic::div_mod::lemma_fundamental_div_mod(room, width);
    vstd::arithmetic::mul::lemma_mul_inequality(count, room / width, width);
    vstd::arithmetic::mul::lemma_mul_is_commutative(width, room / width);
    assert forall|i: int| 0 <= i < count implies (#[trigger] (i * width)) + width <= count
        * width && 0 <= i * width by {
        vstd::arithmetic::mul::lemma_mul_inequality(i + 1, count, width);
        vstd::arithmetic::mul::lemma_mul_is_distributive_add_other_way(width, i, 1);
        vstd::arithmetic::mul::lemma_mul_nonnegative(i, width);
    }
}

/// Reads the length that the object at `at` states.
fn read_length(bytes: &Vec<u8>, at: usize) -> (length: Result<(u64, usize), DecodeError>)
    requires
        at < bytes.len(),
    ensures
        match length {
            Ok((count, start)) => length_at(bytes@, at as int) == Ok::<(nat, int), DecodeError>(
                (count as nat, start as int),
            ) && start <= bytes.len(),
            Err(e) => length_at(bytes@, at as int) == Err::<(nat, int), DecodeError>(e),
        },
{
    let low = bytes[at] % 16;
    if low < 15 {
        return Ok((low as u64, at + 1));
    }
    if bytes.len() - at < 2 {
        return Err(DecodeError::TruncatedData);
    }
    let marker = bytes[at + 1];
    if marker / 16 != 1 || marker % 16 > 3 {
        return Err(DecodeError::Malformed);
    }
    let exponent = marker % 16;
    let width: usize = if exponent == 0 {
        1
    } else if exponent == 1 {
        2
    } else if exponent == 2 {
        4
    } else {
        8
    };
    if bytes.len() - at - 2 < width {
        return Err(DecodeError::TruncatedData);
    }
    Ok((read_uint(bytes, at + 2, width), at + 2 + width))
}

/// Reads `count` numbers of `width` bytes each from `at` on.
fn read_refs(bytes: &Vec<u8>, at: usize, count: usize, width: usize) -> (refs: Vec<u64>)
    requires
        1 <= width <= 8,
        at <= bytes.len(),
        count <= (bytes.len() - at) / (width as int),
    ensures
        ref_views(refs@) == refs_at(bytes@, at as int, count as nat, width as int),
        refs.len() == count,
{
    let mut refs: Vec<u64> = Vec::new();
    let mut i: usize = 0;
    let mut place: usize = at;
    proof {
        lemma_span(count as int, bytes.len() - at, width as int);
        assert(0 * (width as int) == 0);
    }
    while i < count
        invariant
            i <= count,
            1 <= width <= 8,
            at <= bytes.len(),
            count * width <= bytes.len() - at,
            forall|k: int| 0 <= k < count ==> (#[trigger] (k * width)) + width <= count * width,
            forall|k: int| 0 <= k < count ==> 0 <= #[trigger] (k * width),
            place == at + i * width,
            refs.len() == i,
            forall|k: int|
                0 <= k < i ==> (#[trigger] refs[k]) as nat == uint_at(
                    bytes@,
                    at + k * width,
                    width as int,
                ),
        decreases count - i,
    {
        proof {
            assert((i as int) * (width as int) + width <= count * width);
            vstd::arithmetic::mul::lemma_mul_is_distributive_add_other_way(
                width as int,
                i as int,
                1,
            );
        }
        refs.push(read_uint(bytes, place, width));
        place += width;
        i += 1;
    }
    proof {
        assert(ref_views(refs@) =~= refs_at(bytes@, at as int, count as nat, width as int));
    }
    refs
}

/// Reads the text that the `count` bytes from `start` on spell in ASCII.
fn read_ascii(bytes: &Vec<u8>, start: usize, count: usize) -> (text: Option<String>)
    requires
        start + count <= bytes.len(),
    ensures
        match text {
            Some(t) => ascii_text(bytes@.subrange(start as int, start + count)) == Some(t@),
            None => ascii_text(bytes@.subrange(start as int, start + count)) is None,
        },
{
    let ghost body = bytes@.subrange(start as int, start + count);
    let mut text = String::new();
    let mut i: usize = 0;
    while i < count
        invariant
            i <= count,
            start + count <= bytes.len(),
            body == bytes@.subrange(start as int, start + count),
            text@.len() == i,
            forall|k: int| 0 <= k < i ==> #[trigger] body[k] < 128,
            forall|k: int| 0 <= k < i ==> #[trigger] text@[k] == body[k] as char,
        decreases count - i,
    {
        let byte = bytes[start + i];
        proof {
            assert(body[i as int] == byte);
        }
        if byte >= 128 {
            return None;
        }
        let ghost before = text@;
        text.push(byte as char);
        proof {
            assert forall|k: int| 0 <= k < i + 1 implies #[trigger] text@[k] == body[k] as char by {
                if k < i {
                    assert(text@[k] == before[k]);
                }
            }
        }
        i += 1;
    }
    proof {
        assert(text@ =~= ascii_text(body)->Some_0);
    }
    Some(text)
}

/// Copies the `count` bytes from `start` on.
fn copy_range(bytes: &Vec<u8>, start: usize, count: usize) -> (part: Vec<u8>)
    requires
        start + count <= bytes.len(),
    ensures
        part@ == bytes@.subrange(start as int, start + count),
{
    let mut part: Vec<u8> = Vec::new();
    let mut i: usize = 0;
    while i < count
        invariant
            i <= count,
            start + count <= bytes.len(),
            part@ == bytes@.subrange(start as int, start + i),
        decreases count - i,
    {
        part.push(bytes[start + i]);
        proof {
            assert(part@ == bytes@.subrange(start as int, start + i + 1));
        }
        i += 1;
    }
    part
}

/// Decides whether the keys of `items` are distinct.
pub fn keys_distinct(items: &Vec<(String, PropertyListValue)>) -> (distinct: bool)
    ensures
        distinct == keys_unique(item_views(items@)),
{
    let ghost views = item_views(items@);
    let mut i: usize = 0;
    while i < items.len()
        invariant
            i <= items.len(),
            views == item_views(items@),
            forall|a: int, b: int|
                0 <= a < b < i ==> (#[trigger] views[a]).0 != (#[trigger] views[b]).0,
        decreases items.len() - i,
    {
        let mut j: usize = 0;
        while j < i
            invariant
                j <= i,
                i < items.len(),
                views == item_views(items@),
                forall|a: int| 0 <= a < j ==> (#[trigger] views[a]).0 != views[i as int].0,
            decreases i - j,
        {
            proof {
                assert(views[j as int].0 == items[j as int].0@);
                assert(views[i as int].0 == items[i as int].0@);
            }
            if items[j].0 == items[i].0 {
                return false;
            }
            j += 1;
        }
        i += 1;
    }
    true
}

/// A failure among the first of the references is the failure of them all.
pub proof fn lemma_read_all_fails(
    bytes: Seq<u8>,
    layout: Layout,
    refs: Seq<nat>,
    upto: int,
    fuel: nat,
)
    requires
        0 <= upto <= refs.len(),
        read_all(bytes, layout, refs.take(upto), fuel) is Err,
    ensures
        read_all(bytes, layout, refs, fuel) == read_all(bytes, layout, refs.take(upto), fuel),
    decreases refs.len(),
{
    if upto < refs.len() {
        assert(refs.drop_last().take(upto) == refs.take(upto));
        lemma_read_all_fails(bytes, layout, refs.drop_last(), upto, fuel);
    } else {
        assert(refs.take(upto) == refs);
    }
}

/// A failure among the first of the items is the failure of them all.
pub proof fn lemma_read_items_fails(
    bytes: Seq<u8>,
    layout: Layout,
    keys: Seq<nat>,
    values: Seq<nat>,
    upto: int,
    fuel: nat,
)
    requires
        keys.len() == values.len(),
        0 <= upto <= keys.len(),
        read_items(bytes, layout, keys.take(upto), values.take(upto), fuel) is Err,
    ensures
        read_items(bytes, layout, keys, values, fuel) == read_items(
            bytes,
            layout,
            keys.take(upto),
            values.take(upto),
            fuel,
        ),
    decreases keys.len(),
{
    if upto < keys.len() {
        assert(keys.drop_last().take(upto) == keys.take(upto));
        assert(values.drop_last().take(upto) == values.take(upto));
        lemma_read_items_fails(bytes, layout, keys.drop_last(), values.drop_last(), upto, fuel);
    } else {
        assert(keys.take(upto) == keys);
        assert(values.take(upto) == values);
    }
}

/// Reads the integer whose object begins at `at`.
fn read_integer(bytes: &Vec<u8>, at: usize) -> (value: Result<PropertyListValue, DecodeError>)
    requires
        at < bytes.len(),
    ensures
        match value {
            Ok(v) => integer_at(bytes@, at as int) == Ok::<Plist, DecodeError>(v@),
            Err(e) => integer_at(bytes@, at as int) == Err::<Plist, DecodeError>(e),
        },
{
    let exponent = bytes[at] % 16;
    if exponent > 3 {
        return Err(DecodeError::Unsupported);
    }
    let width: usize = if exponent == 0 {
        1
    } else if exponent == 1 {
        2
    } else if exponent == 2 {
        4
    } else {
        8
    };
    if bytes.len() - at - 1 < width {
        return Err(DecodeError::TruncatedData);
    }
    let raw = read_uint(bytes, at + 1, width);
    proof {
        crate::bytes::lemma_be_value_bound(bytes@.subrange(at + 1, at + 1 + width));
        crate::bytes::lemma_pow256_values();
    }
    if width == 8 && raw >= 0x8000_0000_0000_0000 {
        let low = (raw - 0x8000_0000_0000_0000) as i64;
        Ok(PropertyListValue::Integer(low + i64::MIN))
    } else {
        Ok(PropertyListValue::Integer(raw as i64))
    }
}

/// Reads the data or the string whose object begins at `at`.
fn read_sized(bytes: &Vec<u8>, at: usize) -> (value: Result<PropertyListValue, DecodeError>)
    requires
        at < bytes.len(),
        4 <= bytes[at as int] / 16 <= 6,
    ensures
        match value {
            Ok(v) => sized_at(bytes@, at as int) == Ok::<Plist, DecodeError>(v@),
            Err(e) => sized_at(bytes@, at as int) == Err::<Plist, DecodeError>(e),
        },
{
    let kind = bytes[at] / 16;
    let (count, start) = match read_length(bytes, at) {
        Ok(found) => found,
        Err(e) => {
            return Err(e);
        },
    };
    let unit: usize = if kind == 6 {
        2
    } else {
        1
    };
    let room = (bytes.len() - start) / unit;
    if count > room as u64 {
        return Err(DecodeError::TruncatedData);
    }
    let span = count as usize * unit;
    if kind == 4 {
        Ok(PropertyListValue::Data(copy_range(bytes, start, span)))
    } else {
        let text = if kind == 5 {
            read_ascii(bytes, start, span)
        } else {
            decode_utf16(bytes, start, span)
        };
        match text {
            Some(t) => Ok(PropertyListValue::String(t)),
            None => Err(DecodeError::Malformed),
        }
    }
}

/// Reads the values of the objects that `refs` number.
fn read_members(
    bytes: &Vec<u8>,
    offsets: &Vec<u64>,
    ref_width: usize,
    refs: &Vec<u64>,
    fuel: usize,
) -> (members: Result<Vec<PropertyListValue>, DecodeError>)
    requires
        1 <= ref_width <= 8,
    ensures
        match members {
            Ok(found) => read_all(
                bytes@,
                layout_of(ref_width, offsets@),
                ref_views(refs@),
                fuel as nat,
            ) == Ok::<Seq<Plist>, DecodeError>(member_views(found@)),
            Err(e) => read_all(
                bytes@,
                layout_of(ref_width, offsets@),
                ref_views(refs@),
                fuel as nat,
            ) == Err::<Seq<Plist>, DecodeError>(e),
        },
    decreases fuel, 1nat,
{
    let ghost layout = layout_of(ref_width, offsets@);
    let ghost all = ref_views(refs@);
    let mut members: Vec<PropertyListValue> = Vec::new();
    let mut i: usize = 0;
    proof {
        assert(all.take(0) == Seq::<nat>::empty());
        assert(member_views(members@) == Seq::<Plist>::empty());
    }
    while i < refs.len()
        invariant
            i <= refs.len(),
            1 <= ref_width <= 8,
            all == ref_views(refs@),
            layout == layout_of(ref_width, offsets@),
            read_all(bytes@, layout, all.take(i as int), fuel as nat) == Ok::<
                Seq<Plist>,
                DecodeError,
            >(member_views(members@)),
        decreases refs.len() - i,
    {
        proof {
            assert(all.take(i + 1).drop_last() == all.take(i as int));
            assert(all.take(i + 1).last() == refs[i as int] as nat);
        }
        match read_value(bytes, offsets, ref_width, refs[i], fuel) {
            Ok(member) => {
                let ghost before = member_views(members@);
                members.push(member);
                proof {
                    assert(member_views(members@) == before.push(member@));
                }
            },
            Err(e) => {
                proof {
                    lemma_read_all_fails(bytes@, layout, all, i + 1, fuel as nat);
                }
                return Err(e);
            },
        }
        i += 1;
    }
    proof {
        assert(all.take(refs.len() as int) == all);
    }
    Ok(members)
}

/// Reads the items whose keys `keys` number and whose values `values`
/// number.
fn read_entries(
    bytes: &Vec<u8>,
    offsets: &Vec<u64>,
    ref_width: usize,
    keys: &Vec<u64>,
    values: &Vec<u64>,
    fuel: usize,
) -> (items: Result<Vec<(String, PropertyListValue)>, DecodeError>)
    requires
        1 <= ref_width <= 8,
        keys.len() == values.len(),
    ensures
        match items {
            Ok(found) => read_items(
                bytes@,
                layout_of(ref_width, offsets@),
                ref_views(keys@),
                ref_views(values@),
                fuel as nat,
            ) == Ok::<Seq<(Seq<char>, Plist)>, DecodeError>(item_views(found@)),
            Err(e) => read_items(
                bytes@,
                layout_of(ref_width, offsets@),
                ref_views(keys@),
                ref_views(values@),
                fuel as nat,
            ) == Err::<Seq<(Seq<char>, Plist)>, DecodeError>(e),
        },
    decreases fuel, 1nat,
{
    let ghost layout = layout_of(ref_width, offsets@);
    let ghost all_keys = ref_views(keys@);
    let ghost all_values = ref_views(values@);
    let mut items: Vec<(String, PropertyListValue)> = Vec::new();
    let mut i: usize = 0;
    proof {
        assert(all_keys.take(0) == Seq::<nat>::empty());
        assert(item_views(items@) == Seq::<(Seq<char>, Plist)>::empty());
    }
    while i < keys.len()
        invariant
            i <= keys.len(),
            keys.len() == values.len(),
            1 <= ref_width <= 8,
            all_keys == ref_views(keys@),
            all_values == ref_views(values@),
            layout == layout_of(ref_width, offsets@),
            read_items(
                bytes@,
                layout,
                all_keys.take(i as int),
                all_values.take(i as int),
                fuel as nat,
            ) == Ok::<Seq<(Seq<char>, Plist)>, DecodeError>(item_views(items@)),
        decreases keys.len() - i,
    {
        proof {
            assert(all_keys.take(i + 1).drop_last() == all_keys.take(i as int));
            assert(all_values.take(i + 1).drop_last() == all_values.take(i as int));
            assert(all_keys.take(i + 1).last() == keys[i as int] as nat);
            assert(all_values.take(i + 1).last() == values[i as int] as nat);
        }
        let key = match read_value(bytes, offsets, ref_width, keys[i], fuel) {
            Ok(PropertyListValue::String(key)) => key,
            Ok(_) => {
                proof {
                    lemma_read_items_fails(
                        bytes@,
                        layout,
                        all_keys,
                        all_values,
                        i + 1,
                        fuel as nat,
                    );
                }
                return Err(DecodeError::Malformed);
            },
            Err(e) => {
                proof {
                    lemma_read_items_fails(
                        bytes@,
                        layout,
                        all_keys,
                        all_values,
                        i + 1,
                        fuel as nat,
                    );
                }
                return Err(e);
            },
        };
        match read_value(bytes, offsets, ref_width, values[i], fuel) {
            Ok(value) => {
                let ghost before = item_views(items@);
                let ghost pair = (key@, value@);
                items.push((key, value));
                proof {
                    assert(item_views(items@) == before.push(pair));
                }
            },
            Err(e) => {
                proof {
                    lemma_read_items_fails(
                        bytes@,
                        layout,
                        all_keys,
                        all_values,
                        i + 1,
                        fuel as nat,
                    );
                }
                return Err(e);
            },
        }
        i += 1;
    }
    proof {
        assert(all_keys.take(keys.len() as int) == all_keys);
        assert(all_values.take(keys.len() as int) == all_values);
    }
    Ok(items)
}

/// Reads the value of object number `index`.
fn read_value(
    bytes: &Vec<u8>,
    offsets: &Vec<u64>,
    ref_width: usize,
    index: u64,
    fuel: usize,
) -> (value: Result<PropertyListValue, DecodeError>)
    requires
        1 <= ref_width <= 8,
    ensures
        match value {
            Ok(v) => read_object(
                bytes@,
                layout_of(ref_width, offsets@),
                index as nat,
                fuel as nat,
            ) == Ok::<Plist, DecodeError>(v@),
            Err(e) => read_object(
                bytes@,
                layout_of(ref_width, offsets@),
                index as nat,
                fuel as nat,
            ) == Err::<Plist, DecodeError>(e),
        },
    decreases fuel, 0nat,
{
    let ghost layout = layout_of(ref_width, offsets@);
    if fuel == 0 || index >= offsets.len() as u64 {
        return Err(DecodeError::Malformed);
    }
    let offset = offsets[index as usize];
    proof {
        assert(layout.offsets[index as int] == offset as nat);
    }
    if offset >= bytes.len() as u64 {
        return Err(DecodeError::TruncatedData);
    }
    let at = offset as usize;
    let marker = bytes[at];
    let kind = marker / 16;
    if kind == 0 {
        if marker == 8 {
            Ok(PropertyListValue::Boolean(false))
        } else if marker == 9 {
            Ok(PropertyListValue::Boolean(true))
        } else {
            Err(DecodeError::Unsupported)
        }
    } else if kind == 1 {
        read_integer(bytes, at)
    } else if kind == 2 || kind == 3 || kind == 8 {
        Err(DecodeError::Unsupported)
    } else if kind == 4 || kind == 5 || kind == 6 {
        read_sized(bytes, at)
    } else if kind == 10 {
        let (count, start) = match read_length(bytes, at) {
            Ok(found) => found,
            Err(e) => {
                return Err(e);
            },
        };
        let room = (bytes.len() - start) / ref_width;
        if count > room as u64 {
            return Err(DecodeError::TruncatedData);
        }
        let refs = read_refs(bytes, start, count as usize, ref_width);
        match read_members(bytes, offsets, ref_width, &refs, fuel - 1) {
            Ok(members) => {
                proof {
                    lemma_array_view(members);
                }
                Ok(PropertyListValue::Array(members))
            },
            Err(e) => Err(e),
        }
    } else if kind == 13 {
        let (count, start) = match read_length(bytes, at) {
            Ok(found) => found,
            Err(e) => {
                return Err(e);
            },
        };
        let room = (bytes.len() - start) / ref_width;
        if count > room as u64 {
            return Err(DecodeError::TruncatedData);
        }
        proof {
            lemma_span(count as int, bytes.len() - start, ref_width as int);
        }
        let middle = start + count as usize * ref_width;
        let room = (bytes.len() - middle) / ref_width;
        if count > room as u64 {
            return Err(DecodeError::TruncatedData);
        }
        let keys = read_refs(bytes, start, count as usize, ref_width);
        let values = read_refs(bytes, middle, count as usize, ref_width);
        match read_entries(bytes, offsets, ref_width, &keys, &values, fuel - 1) {
            Ok(items) => {
                proof {
                    lemma_dictionary_view(items);
                }
                if keys_distinct(&items) {
                    Ok(PropertyListValue::Dictionary(items))
                } else {
                    Err(DecodeError::Malformed)
                }
            },
            Err(e) => Err(e),
        }
    } else {
        Err(DecodeError::Malformed)
    }
}

impl PropertyListDocument {
    /// Reads a document from the bytes of a binary property list.
    ///
    /// Fails with `NotAPropertyList` where the bytes do not begin with the
    /// header, with `TruncatedData` where the trailer, the table of offsets
    /// or a part of an object runs past the end, and with the other errors
    /// as [`DecodeError`] describes them; `decoded` says which comes when.
    pub fn decode(bytes: &Vec<u8>) -> (document: Result<PropertyListDocument, DecodeError>)
        ensures
            match document {
                Ok(d) => decoded(bytes@) == Ok::<Plist, DecodeError>(d@),
                Err(e) => decoded(bytes@) == Err::<Plist, DecodeError>(e),
            },
    {
        let n = bytes.len();
        if n < 8 || bytes[0] != 0x62 || bytes[1] != 0x70 || bytes[2] != 0x6C || bytes[3] != 0x69
            || bytes[4] != 0x73 || bytes[5] != 0x74 || bytes[6] != 0x30 || bytes[7] != 0x30 {
            proof {
                if n >= 8 {
                    let head = bytes@.subrange(0, 8);
                    assert(head[0] == bytes@[0] && head[1] == bytes@[1] && head[2] == bytes@[2]
                        && head[3] == bytes@[3] && head[4] == bytes@[4] && head[5] == bytes@[5]
                        && head[6] == bytes@[6] && head[7] == bytes@[7]);
                }
            }
            return Err(DecodeError::NotAPropertyList);
        }
        proof {
            assert(bytes@.subrange(0, 8) =~= magic());
        }
        if n < 8 + TRAILER_LEN {
            return Err(DecodeError::TruncatedData);
        }
        let end = n - TRAILER_LEN;
        let offset_width = bytes[end + 6] as usize;
        let ref_width = bytes[end + 7] as usize;
        let count = read_uint(bytes, end + 8, 8);
        let top = read_uint(bytes, end + 16, 8);
        let table = read_uint(bytes, end + 24, 8);
        if offset_width < 1 || offset_width > 8 || ref_width < 1 || ref_width > 8 {
            return Err(DecodeError::Malformed);
        }
        if count == 0 || top >= count || table < 8 {
            return Err(DecodeError::Malformed);
        }
        if table > end as u64 {
            return Err(DecodeError::TruncatedData);
        }
        let start = table as usize;
        let room = (end - start) / offset_width;
        if count > room as u64 {
            return Err(DecodeError::TruncatedData);
        }
        proof {
            vstd::arithmetic::div_mod::lemma_div_is_ordered(
                end - start,
                n - start,
                offset_width as int,
            );
        }
        let offsets = read_refs(bytes, start, count as usize, offset_width);
        match read_value(bytes, &offsets, ref_width, top, DEPTH_LIMIT) {
            Ok(root) => Ok(PropertyListDocument { root }),
            Err(e) => Err(e),
        }
    }
}

} // verus!
