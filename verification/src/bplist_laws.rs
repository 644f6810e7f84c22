use vstd::prelude::*;
use crate::bplist::{
    ascii_text, decoded, int_width, length_at, magic, read_all, read_items, read_object, refs_at,
    Layout, DEPTH_LIMIT,
};
use crate::bplist_write::{
    ascii_bytes, emit, emit_all, emit_items, encoded, extends, is_ascii_text,
    lemma_emit_all_extends, lemma_emit_extends, lemma_emit_items_extends,
    lemma_extends_transitive, lemma_with_object_extends, length_header, refs_bytes,
    string_object, trailer, twos, with_object, Draft,
};
use crate::bytes::{
    be_bytes, lemma_be_bytes_len, lemma_be_round_trip, lemma_pow256_values, uint_at,
};
use crate::error::DecodeError;
use crate::plist::{
    depth, items_depth, keys_unique, lemma_depth_positive, lemma_items_depth, lemma_members_depth,
    members_depth, Plist,
};
use crate::utf16::{lemma_utf16_bytes_even, lemma_utf16_round_trip, utf16_bytes};

verus! {

/// The first number that eight bytes cannot hold.
pub open spec fn offset_limit() -> nat {
    0x1_0000_0000_0000_0000
}

/// A value that a binary property list can hold: its integers fit into
/// eight bytes, and no dictionary in it has a key twice.
pub open spec fn is_well_formed(value: Plist) -> bool
    decreases value,
{
    match value {
        Plist::Integer(number) => -0x8000_0000_0000_0000 <= number < 0x8000_0000_0000_0000,
        Plist::Array(members) => forall|i: int|
            0 <= i < members.len() ==> is_well_formed(#[trigger] members[i]),
        Plist::Dictionary(items) => keys_unique(items) && forall|i: int|
            0 <= i < items.len() ==> is_well_formed((#[trigger] items[i]).1),
        _ => true,
    }
}

/// The part of `file` that begins at `at` is `part`.
pub open spec fn holds_at(file: Seq<u8>, at: int, part: Seq<u8>) -> bool {
    0 <= at && at + part.len() <= file.len() && file.subrange(at, at + part.len()) == part
}

/// What a file holds at a place, it holds piece by piece.
pub proof fn lemma_holds_split(file: Seq<u8>, at: int, first: Seq<u8>, second: Seq<u8>)
    requires
        holds_at(file, at, first + second),
    ensures
        holds_at(file, at, first),
        holds_at(file, at + first.len(), second),
{
    let whole = first + second;
    assert(file.subrange(at, at + first.len()) =~= whole.subrange(0, first.len() as int));
    assert(whole.subrange(0, first.len() as int) =~= first);
    assert(file.subrange(at + first.len(), at + first.len() + second.len()) =~= whole.subrange(
        first.len() as int,
        whole.len() as int,
    ));
    assert(whole.subrange(first.len() as int, whole.len() as int) =~= second);
}

/// What a draft holds at a place, every file that begins with it holds
/// there.
pub proof fn lemma_holds_in_longer(file: Seq<u8>, shorter: Seq<u8>, at: int, part: Seq<u8>)
    requires
        extends(file, shorter),
        holds_at(shorter, at, part),
    ensures
        holds_at(file, at, part),
{
    assert(file.subrange(at, at + part.len()) =~= file.take(shorter.len() as int).subrange(
        at,
        at + part.len(),
    ));
}

/// A number of eight bytes that a file holds is read from it.
pub proof fn lemma_uint_reads(file: Seq<u8>, at: int, value: nat)
    requires
        value < offset_limit(),
        holds_at(file, at, be_bytes(value, 8)),
    ensures
        uint_at(file, at, 8) == value,
        at + 8 <= file.len(),
{
    lemma_be_bytes_len(value, 8);
    lemma_pow256_values();
    lemma_be_round_trip(value, 8);
}

/// The length that a header states is read from it, and the marker names
/// the kind.
pub proof fn lemma_header_reads(file: Seq<u8>, at: int, kind: nat, count: nat)
    requires
        kind < 16,
        count < offset_limit(),
        holds_at(file, at, length_header(kind, count)),
    ensures
        file[at] / 16 == kind,
        length_at(file, at) == Ok::<(nat, int), DecodeError>(
            (count, at + length_header(kind, count).len()),
        ),
        length_header(kind, count).len() >= 1,
{
    let header = length_header(kind, count);
    if count < 15 {
        assert(file[at] == file.subrange(at, at + header.len())[0]);
        assert(header[0] == (kind * 16 + count) as u8);
    } else {
        lemma_be_bytes_len(count, 8);
        let prefix = seq![(kind * 16 + 15) as u8, 0x13u8];
        lemma_holds_split(file, at, prefix, be_bytes(count, 8));
        assert(file[at] == file.subrange(at, at + 2)[0]);
        assert(file[at + 1] == file.subrange(at, at + 2)[1]);
        assert(prefix[0] == (kind * 16 + 15) as u8);
        assert(prefix[1] == 0x13u8);
        lemma_uint_reads(file, at + 2, count);
        assert(int_width(3) == 8);
    }
}

/// References that a file holds are read from it.
pub proof fn lemma_refs_read(file: Seq<u8>, at: int, refs: Seq<nat>)
    requires
        holds_at(file, at, refs_bytes(refs)),
        forall|i: int| 0 <= i < refs.len() ==> (#[trigger] refs[i]) < offset_limit(),
    ensures
        refs_bytes(refs).len() == 8 * refs.len(),
        refs_at(file, at, refs.len(), 8) == refs,
    decreases refs.len(),
{
    if refs.len() > 0 {
        let init = refs.drop_last();
        lemma_be_bytes_len(refs.last(), 8);
        lemma_holds_split(file, at, refs_bytes(init), be_bytes(refs.last(), 8));
        lemma_refs_read(file, at, init);
        lemma_uint_reads(file, at + 8 * init.len(), refs.last());
        let found = refs_at(file, at, refs.len(), 8);
        assert forall|i: int| 0 <= i < refs.len() implies found[i] == refs[i] by {
            if i < init.len() {
                assert(refs_at(file, at, init.len(), 8)[i] == init[i]);
            }
        }
        assert(found =~= refs);
    } else {
        assert(refs_at(file, at, refs.len(), 8) =~= refs);
    }
}

/// References take eight bytes each.
pub proof fn lemma_refs_bytes_len(refs: Seq<nat>)
    ensures
        refs_bytes(refs).len() == 8 * refs.len(),
    decreases refs.len(),
{
    if refs.len() > 0 {
        lemma_refs_bytes_len(refs.drop_last());
        lemma_be_bytes_len(refs.last(), 8);
    }
}

/// Law: an ASCII text is read back from its bytes.
pub proof fn lemma_ascii_round_trip(text: Seq<char>)
    requires
        is_ascii_text(text),
    ensures
        ascii_text(ascii_bytes(text)) == Some(text),
{
    let bytes = ascii_bytes(text);
    assert forall|i: int| 0 <= i < bytes.len() implies bytes[i] < 128 && bytes[i] as char
        == text[i] by {
        let c = text[i];
        assert((c as u32) < 128);
        vstd::utf8::char_u32_cast(c, c as u32);
    }
    assert(Seq::new(bytes.len(), |i: int| bytes[i] as char) =~= text);
}

/// A draft has at least one byte for each of its objects, and each of its
/// objects begins within its bytes.
pub open spec fn is_tidy(draft: Draft) -> bool {
    &&& draft.offsets.len() <= draft.bytes.len()
    &&& forall|i: int| 0 <= i < draft.offsets.len() ==> (#[trigger] draft.offsets[i])
        < draft.bytes.len()
}

/// A draft with one more object, of at least one byte, stays tidy.
pub proof fn lemma_with_object_tidy(draft: Draft, body: Seq<u8>)
    requires
        is_tidy(draft),
        body.len() >= 1,
    ensures
        is_tidy(with_object(draft, body)),
{
    let after = with_object(draft, body);
    assert forall|i: int| 0 <= i < after.offsets.len() implies (#[trigger] after.offsets[i])
        < after.bytes.len() by {
        if i < draft.offsets.len() {
            assert(after.offsets[i] == draft.offsets[i]);
        }
    }
}

/// The bytes of a string object are at least one.
pub proof fn lemma_string_object_len(text: Seq<char>)
    ensures
        string_object(text).len() >= 1,
{
    if is_ascii_text(text) {
        assert(length_header(5, text.len()).len() >= 1);
    } else {
        assert(length_header(6, utf16_bytes(text).len() / 2).len() >= 1);
    }
}

/// Emitting keeps a draft tidy.
pub proof fn lemma_emit_tidy(draft: Draft, value: Plist)
    requires
        is_tidy(draft),
    ensures
        is_tidy(emit(draft, value)),
    decreases value,
{
    match value {
        Plist::Array(members) => {
            lemma_emit_all_tidy(draft, members);
            let (after, refs) = emit_all(draft, members);
            assert(length_header(10, members.len()).len() >= 1);
            lemma_with_object_tidy(after, length_header(10, members.len()) + refs_bytes(refs));
        },
        Plist::Dictionary(items) => {
            lemma_emit_items_tidy(draft, items);
            let (after, keys, values) = emit_items(draft, items);
            assert(length_header(13, items.len()).len() >= 1);
            lemma_with_object_tidy(
                after,
                length_header(13, items.len()) + refs_bytes(keys) + refs_bytes(values),
            );
        },
        Plist::String(text) => {
            lemma_string_object_len(text);
            lemma_with_object_tidy(draft, string_object(text));
        },
        Plist::Boolean(flag) => {
            lemma_with_object_tidy(draft, seq![if flag { 9u8 } else { 8u8 }]);
        },
        Plist::Integer(number) => {
            lemma_with_object_tidy(draft, seq![0x13u8] + be_bytes(twos(number), 8));
        },
        Plist::Data(data) => {
            assert(length_header(4, data.len()).len() >= 1);
            lemma_with_object_tidy(draft, length_header(4, data.len()) + data);
        },
    }
}

/// Emitting members keeps a draft tidy, and the numbers of the members lie
/// within it.
pub proof fn lemma_emit_all_tidy(draft: Draft, members: Seq<Plist>)
    requires
        is_tidy(draft),
    ensures
        is_tidy(emit_all(draft, members).0),
        forall|i: int|
            0 <= i < emit_all(draft, members).1.len() ==> (#[trigger] emit_all(
                draft,
                members,
            ).1[i]) < emit_all(draft, members).0.offsets.len(),
    decreases members,
{
    if members.len() > 0 {
        let (before, refs) = emit_all(draft, members.drop_last());
        lemma_emit_all_tidy(draft, members.drop_last());
        lemma_emit_tidy(before, members.last());
        lemma_emit_extends(before, members.last());
    }
}

/// Emitting items keeps a draft tidy, and the numbers of keys and values
/// lie within it.
pub proof fn lemma_emit_items_tidy(draft: Draft, items: Seq<(Seq<char>, Plist)>)
    requires
        is_tidy(draft),
    ensures
        is_tidy(emit_items(draft, items).0),
        forall|i: int|
            0 <= i < emit_items(draft, items).1.len() ==> (#[trigger] emit_items(
                draft,
                items,
            ).1[i]) < emit_items(draft, items).0.offsets.len(),
        forall|i: int|
            0 <= i < emit_items(draft, items).2.len() ==> (#[trigger] emit_items(
                draft,
                items,
            ).2[i]) < emit_items(draft, items).0.offsets.len(),
    decreases items,
{
    if items.len() > 0 {
        let (before, keys, values) = emit_items(draft, items.drop_last());
        lemma_emit_items_tidy(draft, items.drop_last());
        let keyed = with_object(before, string_object(items.last().0));
        lemma_string_object_len(items.last().0);
        lemma_with_object_tidy(before, string_object(items.last().0));
        lemma_emit_tidy(keyed, items.last().1);
        lemma_emit_extends(keyed, items.last().1);
    }
}

/// An object that was added to a draft is found in every file and layout
/// that begin with the draft: under the next number, at the end of the
/// bytes that were there.
pub proof fn lemma_placed(pre: Draft, body: Seq<u8>, file: Seq<u8>, layout: Layout)
    requires
        body.len() > 0,
        extends(file, with_object(pre, body).bytes),
        extends(layout.offsets, with_object(pre, body).offsets),
    ensures
        layout.offsets.len() > pre.offsets.len(),
        layout.offsets[pre.offsets.len() as int] == pre.bytes.len(),
        holds_at(file, pre.bytes.len() as int, body),
        pre.bytes.len() < file.len(),
        file[pre.bytes.len() as int] == body[0],
{
    let after = with_object(pre, body);
    assert(layout.offsets.take(after.offsets.len() as int)[pre.offsets.len() as int]
        == after.offsets[pre.offsets.len() as int]);
    let at = pre.bytes.len() as int;
    assert(after.bytes.subrange(at, at + body.len()) =~= body);
    lemma_holds_in_longer(file, after.bytes, at, body);
    assert(file.subrange(at, at + body.len())[0] == file[at]);
}

/// A string object that was added to a draft is read as its text.
pub proof fn lemma_string_reads(
    pre: Draft,
    text: Seq<char>,
    file: Seq<u8>,
    layout: Layout,
    fuel: nat,
)
    requires
        extends(file, with_object(pre, string_object(text)).bytes),
        extends(layout.offsets, with_object(pre, string_object(text)).offsets),
        file.len() < offset_limit(),
        fuel >= 1,
    ensures
        read_object(file, layout, pre.offsets.len(), fuel) == Ok::<Plist, DecodeError>(
            Plist::String(text),
        ),
{
    let body = string_object(text);
    let at = pre.bytes.len() as int;
    lemma_string_object_len(text);
    lemma_placed(pre, body, file, layout);
    if is_ascii_text(text) {
        let header = length_header(5, text.len());
        lemma_holds_split(file, at, header, ascii_bytes(text));
        lemma_header_reads(file, at, 5, text.len());
        lemma_ascii_round_trip(text);
        let start = at + header.len();
        assert(text.len() * 1 == text.len());
        assert(file.subrange(start, start + text.len() * 1) == ascii_bytes(text));
    } else {
        let wide = utf16_bytes(text);
        let count = wide.len() / 2;
        let header = length_header(6, count);
        lemma_utf16_bytes_even(text);
        lemma_holds_split(file, at, header, wide);
        lemma_header_reads(file, at, 6, count);
        lemma_utf16_round_trip(text);
        let start = at + header.len();
        assert(count * 2 == wide.len());
        assert(file.subrange(start, start + count * 2) == wide);
    }
}

/// The members that were emitted are read back through their numbers.
pub proof fn lemma_all_read_back(
    draft: Draft,
    members: Seq<Plist>,
    file: Seq<u8>,
    layout: Layout,
    fuel: nat,
)
    requires
        forall|i: int| 0 <= i < members.len() ==> is_well_formed(#[trigger] members[i]),
        extends(file, emit_all(draft, members).0.bytes),
        extends(layout.offsets, emit_all(draft, members).0.offsets),
        layout.ref_width == 8,
        file.len() < offset_limit(),
        is_tidy(draft),
        fuel >= members_depth(members),
    ensures
        read_all(file, layout, emit_all(draft, members).1, fuel) == Ok::<Seq<Plist>, DecodeError>(
            members,
        ),
    decreases members, 1nat,
{
    if members.len() > 0 {
        let init = members.drop_last();
        let (before, refs) = emit_all(draft, init);
        let after = emit(before, members.last());
        lemma_emit_all_extends(draft, init);
        lemma_emit_all_tidy(draft, init);
        lemma_emit_extends(before, members.last());
        lemma_extends_transitive(file, after.bytes, before.bytes);
        lemma_extends_transitive(layout.offsets, after.offsets, before.offsets);
        assert forall|i: int| 0 <= i < init.len() implies is_well_formed(#[trigger] init[i]) by {
            assert(init[i] == members[i]);
        }
        lemma_all_read_back(draft, init, file, layout, fuel);
        assert(is_well_formed(members[members.len() - 1]));
        lemma_depth_positive(members.last());
        lemma_reads_back(before, members.last(), file, layout, fuel);
        let all = emit_all(draft, members).1;
        assert(all.drop_last() == refs);
        assert(all.last() == (after.offsets.len() - 1) as nat);
        assert(init.push(members.last()) == members);
        assert(read_all(file, layout, all.drop_last(), fuel) == Ok::<Seq<Plist>, DecodeError>(
            init,
        ));
        assert(read_object(file, layout, all.last(), fuel) == Ok::<Plist, DecodeError>(
            members.last(),
        ));
    } else {
        assert(members == Seq::<Plist>::empty());
    }
}

/// The items that were emitted are read back through their numbers.
pub proof fn lemma_items_read_back(
    draft: Draft,
    items: Seq<(Seq<char>, Plist)>,
    file: Seq<u8>,
    layout: Layout,
    fuel: nat,
)
    requires
        forall|i: int| 0 <= i < items.len() ==> is_well_formed((#[trigger] items[i]).1),
        extends(file, emit_items(draft, items).0.bytes),
        extends(layout.offsets, emit_items(draft, items).0.offsets),
        layout.ref_width == 8,
        file.len() < offset_limit(),
        is_tidy(draft),
        fuel >= items_depth(items),
    ensures
        read_items(
            file,
            layout,
            emit_items(draft, items).1,
            emit_items(draft, items).2,
            fuel,
        ) == Ok::<Seq<(Seq<char>, Plist)>, DecodeError>(items),
    decreases items, 1nat,
{
    if items.len() > 0 {
        let init = items.drop_last();
        let (before, keys, values) = emit_items(draft, init);
        let key = items.last().0;
        let keyed = with_object(before, string_object(key));
        let after = emit(keyed, items.last().1);
        lemma_emit_items_extends(draft, init);
        lemma_emit_items_tidy(draft, init);
        lemma_string_object_len(key);
        lemma_with_object_extends(before, string_object(key));
        lemma_emit_extends(keyed, items.last().1);
        lemma_extends_transitive(file, after.bytes, keyed.bytes);
        lemma_extends_transitive(layout.offsets, after.offsets, keyed.offsets);
        lemma_extends_transitive(file, keyed.bytes, before.bytes);
        lemma_extends_transitive(layout.offsets, keyed.offsets, before.offsets);
        assert forall|i: int| 0 <= i < init.len() implies is_well_formed(
            (#[trigger] init[i]).1,
        ) by {
            assert(init[i] == items[i]);
        }
        lemma_items_read_back(draft, init, file, layout, fuel);
        lemma_depth_positive(items.last().1);
        lemma_string_reads(before, key, file, layout, fuel);
        assert(is_well_formed(items[items.len() - 1].1));
        lemma_reads_back(keyed, items.last().1, file, layout, fuel);
        let all_keys = emit_items(draft, items).1;
        let all_values = emit_items(draft, items).2;
        assert(all_keys.drop_last() == keys);
        assert(all_values.drop_last() == values);
        assert(all_keys.last() == before.offsets.len());
        assert(all_values.last() == (after.offsets.len() - 1) as nat);
        assert(init.push((key, items.last().1)) == items);
        assert(read_items(file, layout, all_keys.drop_last(), all_values.drop_last(), fuel)
            == Ok::<Seq<(Seq<char>, Plist)>, DecodeError>(init));
        assert(read_object(file, layout, all_keys.last(), fuel) == Ok::<Plist, DecodeError>(
            Plist::String(key),
        ));
        assert(read_object(file, layout, all_values.last(), fuel) == Ok::<Plist, DecodeError>(
            items.last().1,
        ));
    } else {
        assert(items == Seq::<(Seq<char>, Plist)>::empty());
    }
}

/// A value that was emitted is read back under the number of its own
/// object, from every file and layout that begin with the draft.
pub proof fn lemma_reads_back(
    draft: Draft,
    value: Plist,
    file: Seq<u8>,
    layout: Layout,
    fuel: nat,
)
    requires
        is_well_formed(value),
        extends(file, emit(draft, value).bytes),
        extends(layout.offsets, emit(draft, value).offsets),
        layout.ref_width == 8,
        file.len() < offset_limit(),
        is_tidy(draft),
        fuel >= depth(value),
    ensures
        read_object(file, layout, (emit(draft, value).offsets.len() - 1) as nat, fuel) == Ok::<
            Plist,
            DecodeError,
        >(value),
    decreases value, 0nat,
{
    lemma_emit_extends(draft, value);
    match value {
        Plist::Boolean(flag) => {
            let body = seq![if flag { 9u8 } else { 8u8 }];
            assert(emit(draft, value) == with_object(draft, body));
            lemma_placed(draft, body, file, layout);
            assert(body[0] == if flag { 9u8 } else { 8u8 });
        },
        Plist::Integer(number) => {
            let body = seq![0x13u8] + be_bytes(twos(number), 8);
            let at = draft.bytes.len() as int;
            lemma_be_bytes_len(twos(number), 8);
            lemma_placed(draft, body, file, layout);
            lemma_holds_split(file, at, seq![0x13u8], be_bytes(twos(number), 8));
            lemma_uint_reads(file, at + 1, twos(number));
            assert(int_width(3) == 8);
        },
        Plist::Data(data) => {
            let header = length_header(4, data.len());
            let body = header + data;
            let at = draft.bytes.len() as int;
            assert(header.len() >= 1);
            lemma_placed(draft, body, file, layout);
            lemma_holds_split(file, at, header, data);
            lemma_header_reads(file, at, 4, data.len());
            assert(body[0] == header[0]);
            assert(data.len() * 1 == data.len());
        },
        Plist::String(text) => {
            lemma_string_reads(draft, text, file, layout, fuel);
        },
        Plist::Array(members) => {
            let (pre, refs) = emit_all(draft, members);
            let header = length_header(10, members.len());
            let body = header + refs_bytes(refs);
            let at = pre.bytes.len() as int;
            lemma_emit_all_extends(draft, members);
            lemma_emit_all_tidy(draft, members);
            lemma_with_object_extends(pre, body);
            lemma_extends_transitive(file, emit(draft, value).bytes, pre.bytes);
            lemma_extends_transitive(layout.offsets, emit(draft, value).offsets, pre.offsets);
            assert(header.len() >= 1);
            lemma_placed(pre, body, file, layout);
            lemma_holds_split(file, at, header, refs_bytes(refs));
            lemma_refs_bytes_len(refs);
            lemma_header_reads(file, at, 10, members.len());
            assert(body[0] == header[0]);
            let start = at + header.len();
            lemma_refs_read(file, start, refs);
            assert(members.len() <= (file.len() - start) / 8);
            lemma_all_read_back(draft, members, file, layout, (fuel - 1) as nat);
        },
        Plist::Dictionary(items) => {
            let (pre, keys, values) = emit_items(draft, items);
            let header = length_header(13, items.len());
            let body = header + refs_bytes(keys) + refs_bytes(values);
            let at = pre.bytes.len() as int;
            lemma_emit_items_extends(draft, items);
            lemma_emit_items_tidy(draft, items);
            lemma_with_object_extends(pre, body);
            lemma_extends_transitive(file, emit(draft, value).bytes, pre.bytes);
            lemma_extends_transitive(layout.offsets, emit(draft, value).offsets, pre.offsets);
            assert(header.len() >= 1);
            lemma_placed(pre, body, file, layout);
            lemma_holds_split(file, at, header + refs_bytes(keys), refs_bytes(values));
            lemma_holds_split(file, at, header, refs_bytes(keys));
            lemma_refs_bytes_len(keys);
            lemma_refs_bytes_len(values);
            lemma_header_reads(file, at, 13, items.len());
            assert(body[0] == header[0]);
            let start = at + header.len();
            lemma_refs_read(file, start, keys);
            let middle = start + items.len() * 8;
            lemma_refs_read(file, middle, values);
            assert(items.len() <= (file.len() - start) / 8);
            assert(items.len() <= (file.len() - middle) / 8);
            if items.len() > 0 {
                lemma_items_read_back(draft, items, file, layout, (fuel - 1) as nat);
            } else {
                assert(keys == Seq::<nat>::empty());
                assert(items == Seq::<(Seq<char>, Plist)>::empty());
            }
        },
    }
}

/// The fields of a trailer that a file ends with are read from it.
pub proof fn lemma_trailer_reads(file: Seq<u8>, count: nat, top: nat, table: nat)
    requires
        count < offset_limit(),
        top < offset_limit(),
        table < offset_limit(),
        file.len() >= 32,
        holds_at(file, file.len() - 32, trailer(count, top, table)),
    ensures
        file[file.len() - 32 + 6] == 8,
        file[file.len() - 32 + 7] == 8,
        uint_at(file, file.len() - 32 + 8, 8) == count,
        uint_at(file, file.len() - 32 + 16, 8) == top,
        uint_at(file, file.len() - 32 + 24, 8) == table,
{
    let end = file.len() - 32;
    let fixed = seq![0u8, 0u8, 0u8, 0u8, 0u8, 0u8, 8u8, 8u8];
    lemma_be_bytes_len(count, 8);
    lemma_be_bytes_len(top, 8);
    lemma_be_bytes_len(table, 8);
    lemma_holds_split(file, end, fixed + be_bytes(count, 8) + be_bytes(top, 8), be_bytes(table, 8));
    lemma_holds_split(file, end, fixed + be_bytes(count, 8), be_bytes(top, 8));
    lemma_holds_split(file, end, fixed, be_bytes(count, 8));
    assert(file[end + 6] == file.subrange(end, end + 8)[6]);
    assert(file[end + 7] == file.subrange(end, end + 8)[7]);
    assert(fixed[6] == 8u8 && fixed[7] == 8u8);
    lemma_uint_reads(file, end + 8, count);
    lemma_uint_reads(file, end + 16, top);
    lemma_uint_reads(file, end + 24, table);
}

/// The parts of the list that is written for a value lie where the trailer
/// says.
pub proof fn lemma_encoded_parts(value: Plist)
    ensures
        ({
            let draft = emit(Draft { bytes: magic(), offsets: Seq::<nat>::empty() }, value);
            let file = encoded(value);
            &&& file.len() == draft.bytes.len() + 8 * draft.offsets.len() + 32
            &&& draft.bytes.len() >= 8
            &&& draft.offsets.len() >= 1
            &&& file.subrange(0, 8) == magic()
            &&& extends(file, draft.bytes)
            &&& holds_at(file, draft.bytes.len() as int, refs_bytes(draft.offsets))
            &&& holds_at(
                file,
                file.len() - 32,
                trailer(
                    draft.offsets.len(),
                    (draft.offsets.len() - 1) as nat,
                    draft.bytes.len(),
                ),
            )
        }),
{
    let start = Draft { bytes: magic(), offsets: Seq::<nat>::empty() };
    let draft = emit(start, value);
    let count = draft.offsets.len();
    let table = refs_bytes(draft.offsets);
    let tail = trailer(count, (count - 1) as nat, draft.bytes.len());
    let file = encoded(value);
    let at = draft.bytes.len() as int;
    lemma_emit_extends(start, value);
    lemma_refs_bytes_len(draft.offsets);
    lemma_be_bytes_len(count, 8);
    lemma_be_bytes_len((count - 1) as nat, 8);
    lemma_be_bytes_len(draft.bytes.len(), 8);
    assert(tail.len() == 32);
    assert(file == draft.bytes + table + tail);
    assert(file.subrange(0, 8) =~= draft.bytes.take(8));
    assert(file.take(at) =~= draft.bytes);
    assert(file.subrange(file.len() - 32, file.len() - 32 + 32) =~= tail);
    assert(file.subrange(at, at + table.len()) =~= table);
}

/// Law: a well-formed value that nests no deeper than lists are read is
/// read back from the binary property list that is written for it,
/// provided the list is short enough for its offsets to fit into eight
/// bytes. Writing what was read then gives the same bytes again.
pub proof fn lemma_decode_encode(value: Plist)
    requires
        is_well_formed(value),
        depth(value) <= DEPTH_LIMIT,
        encoded(value).len() < offset_limit(),
    ensures
        decoded(encoded(value)) == Ok::<Plist, DecodeError>(value),
        encoded(decoded(encoded(value))->Ok_0) == encoded(value),
{
    let start = Draft { bytes: magic(), offsets: Seq::<nat>::empty() };
    let draft = emit(start, value);
    let count = draft.offsets.len();
    let top = (count - 1) as nat;
    let file = encoded(value);
    let end = file.len() - 32;
    let layout = Layout { ref_width: 8, offsets: draft.offsets };
    lemma_encoded_parts(value);
    lemma_emit_tidy(start, value);
    lemma_trailer_reads(file, count, top, draft.bytes.len());
    lemma_refs_read(file, draft.bytes.len() as int, draft.offsets);
    assert(end - draft.bytes.len() == 8 * count);
    assert(count <= (end - draft.bytes.len()) / 8);
    assert(layout.offsets.take(draft.offsets.len() as int) =~= draft.offsets);
    lemma_reads_back(start, value, file, layout, DEPTH_LIMIT as nat);
    assert(refs_at(file, draft.bytes.len() as int, count, 8) == draft.offsets);
    assert(read_object(file, layout, top, DEPTH_LIMIT as nat) == Ok::<Plist, DecodeError>(
        value,
    ));
}

/// What is read from an object is well-formed and no deeper than
/// references were followed.
pub proof fn lemma_read_well_formed(bytes: Seq<u8>, layout: Layout, index: nat, fuel: nat)
    requires
        read_object(bytes, layout, index, fuel) is Ok,
    ensures
        is_well_formed(read_object(bytes, layout, index, fuel)->Ok_0),
        depth(read_object(bytes, layout, index, fuel)->Ok_0) <= fuel,
    decreases fuel, 0nat,
{
    let at = layout.offsets[index as int] as int;
    let marker = bytes[at];
    let kind = marker / 16;
    if kind == 1 {
        let width = int_width((marker % 16) as int);
        crate::bytes::lemma_be_value_bound(bytes.subrange(at + 1, at + 1 + width));
        lemma_pow256_values();
    } else if kind == 10 {
        let found = length_at(bytes, at)->Ok_0;
        let refs = refs_at(bytes, found.1, found.0, layout.ref_width);
        lemma_read_all_well_formed(bytes, layout, refs, (fuel - 1) as nat);
        lemma_members_depth(
            read_all(bytes, layout, refs, (fuel - 1) as nat)->Ok_0,
            (fuel - 1) as nat,
        );
    } else if kind == 13 {
        let found = length_at(bytes, at)->Ok_0;
        let middle = found.1 + found.0 * layout.ref_width;
        let keys = refs_at(bytes, found.1, found.0, layout.ref_width);
        let values = refs_at(bytes, middle, found.0, layout.ref_width);
        lemma_read_items_well_formed(bytes, layout, keys, values, (fuel - 1) as nat);
        lemma_items_depth(
            read_items(bytes, layout, keys, values, (fuel - 1) as nat)->Ok_0,
            (fuel - 1) as nat,
        );
    }
}

/// What is read from a row of objects is well-formed.
pub proof fn lemma_read_all_well_formed(bytes: Seq<u8>, layout: Layout, refs: Seq<nat>, fuel: nat)
    requires
        read_all(bytes, layout, refs, fuel) is Ok,
    ensures
        forall|i: int|
            0 <= i < read_all(bytes, layout, refs, fuel)->Ok_0.len() ==> is_well_formed(
                #[trigger] read_all(bytes, layout, refs, fuel)->Ok_0[i],
            ) && depth(read_all(bytes, layout, refs, fuel)->Ok_0[i]) <= fuel,
    decreases fuel, refs.len() + 1,
{
    if refs.len() > 0 {
        lemma_read_all_well_formed(bytes, layout, refs.drop_last(), fuel);
        lemma_read_well_formed(bytes, layout, refs.last(), fuel);
        let before = read_all(bytes, layout, refs.drop_last(), fuel)->Ok_0;
        let all = read_all(bytes, layout, refs, fuel)->Ok_0;
        assert forall|i: int| 0 <= i < all.len() implies is_well_formed(#[trigger] all[i])
            && depth(all[i]) <= fuel by {
            if i < before.len() {
                assert(all[i] == before[i]);
            }
        }
    }
}

/// What is read from a row of items is well-formed.
pub proof fn lemma_read_items_well_formed(
    bytes: Seq<u8>,
    layout: Layout,
    keys: Seq<nat>,
    values: Seq<nat>,
    fuel: nat,
)
    requires
        read_items(bytes, layout, keys, values, fuel) is Ok,
    ensures
        forall|i: int|
            0 <= i < read_items(bytes, layout, keys, values, fuel)->Ok_0.len() ==> is_well_formed(
                (#[trigger] read_items(bytes, layout, keys, values, fuel)->Ok_0[i]).1,
            ) && depth(read_items(bytes, layout, keys, values, fuel)->Ok_0[i].1) <= fuel,
        read_items(bytes, layout, keys, values, fuel)->Ok_0.len() > 0 ==> fuel >= 1,
    decreases fuel, keys.len() + 1,
{
    if keys.len() > 0 {
        lemma_read_items_well_formed(bytes, layout, keys.drop_last(), values.drop_last(), fuel);
        lemma_read_well_formed(bytes, layout, values.last(), fuel);
        let before = read_items(bytes, layout, keys.drop_last(), values.drop_last(), fuel)->Ok_0;
        let all = read_items(bytes, layout, keys, values, fuel)->Ok_0;
        assert forall|i: int| 0 <= i < all.len() implies is_well_formed((#[trigger] all[i]).1)
            && depth(all[i].1) <= fuel by {
            if i < before.len() {
                assert(all[i] == before[i]);
            }
        }
    }
}

/// Law: every value that is read from bytes is well-formed and nests no
/// deeper than lists are read, so that it is read back from what is
/// written for it.
pub proof fn lemma_decoded_well_formed(bytes: Seq<u8>)
    requires
        decoded(bytes) is Ok,
    ensures
        is_well_formed(decoded(bytes)->Ok_0),
        depth(decoded(bytes)->Ok_0) <= DEPTH_LIMIT,
{
    let end = bytes.len() - 32;
    let offset_width = bytes[end + 6] as int;
    let ref_width = bytes[end + 7] as int;
    let count = uint_at(bytes, end + 8, 8);
    let top = uint_at(bytes, end + 16, 8);
    let table = uint_at(bytes, end + 24, 8);
    lemma_read_well_formed(
        bytes,
        Layout { ref_width, offsets: refs_at(bytes, table as int, count, offset_width) },
        top,
        DEPTH_LIMIT as nat,
    );
}

} // verus!
