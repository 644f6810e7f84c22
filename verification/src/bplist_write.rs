use vstd::prelude::*;
use crate::bplist::{magic, ref_views};
use crate::bytes::{be_bytes, push_uint};
use crate::plist::{
    item_views, lemma_items_of, lemma_plists_of, member_views, Plist, PropertyListDocument,
    PropertyListValue,
};
use crate::text::chars_of;
use crate::utf16::{encode_utf16, lemma_utf16_bytes_even, utf16_bytes};

verus! {

/// A list while it is written: the bytes so far, and the place of every
/// object so far, by its number.
pub ghost struct Draft {
    pub bytes: Seq<u8>,
    pub offsets: Seq<nat>,
}

/// The draft with one more object, whose bytes are `body`.
pub open spec fn with_object(draft: Draft, body: Seq<u8>) -> Draft {
    Draft { bytes: draft.bytes + body, offsets: draft.offsets.push(draft.bytes.len()) }
}

/// The marker of an object of kind `kind` and length `count`, followed by
/// the length as an integer of eight bytes where the marker has no room
/// for it.
pub open spec fn length_header(kind: nat, count: nat) -> Seq<u8> {
    if count < 15 {
        seq![(kind * 16 + count) as u8]
    } else {
        seq![(kind * 16 + 15) as u8, 0x13u8] + be_bytes(count, 8)
    }
}

/// The number that spells `number` in two's complement of eight bytes.
pub open spec fn twos(number: int) -> nat {
    if number >= 0 {
        number as nat
    } else {
        (number + 0x1_0000_0000_0000_0000) as nat
    }
}

/// Every character of `text` is an ASCII character.
pub open spec fn is_ascii_text(text: Seq<char>) -> bool {
    forall|i: int| 0 <= i < text.len() ==> ((#[trigger] text[i]) as u32) < 128
}

/// The bytes of an ASCII text.
pub open spec fn ascii_bytes(text: Seq<char>) -> Seq<u8> {
    Seq::new(text.len(), |i: int| text[i] as u32 as u8)
}

/// The object for a string: in ASCII where the text is ASCII, in UTF-16
/// otherwise.
pub open spec fn string_object(text: Seq<char>) -> Seq<u8> {
    if is_ascii_text(text) {
        length_header(5, text.len()) + ascii_bytes(text)
    } else {
        length_header(6, utf16_bytes(text).len() / 2) + utf16_bytes(text)
    }
}

/// References of eight bytes each.
pub open spec fn refs_bytes(refs: Seq<nat>) -> Seq<u8>
    decreases refs.len(),
{
    if refs.len() == 0 {
        Seq::<u8>::empty()
    } else {
        refs_bytes(refs.drop_last()) + be_bytes(refs.last(), 8)
    }
}

/// The draft with the objects of `value`: those of its parts first, in
/// their order, then the object of the value itself, which so gets the
/// highest number.
pub open spec fn emit(draft: Draft, value: Plist) -> Draft
    decreases value,
{
    match value {
        Plist::Boolean(flag) => with_object(
            draft,
            seq![if flag {
                9u8
            } else {
                8u8
            }],
        ),
        Plist::Integer(number) => with_object(draft, seq![0x13u8] + be_bytes(twos(number), 8)),
        Plist::Data(data) => with_object(draft, length_header(4, data.len()) + data),
        Plist::String(text) => with_object(draft, string_object(text)),
        Plist::Array(members) => {
            let (after, refs) = emit_all(draft, members);
            with_object(after, length_header(10, members.len()) + refs_bytes(refs))
        },
        Plist::Dictionary(items) => {
            let (after, keys, values) = emit_items(draft, items);
            with_object(
                after,
                length_header(13, items.len()) + refs_bytes(keys) + refs_bytes(values),
            )
        },
    }
}

/// The draft with the objects of `members`, and the numbers of the objects
/// of the members themselves.
pub open spec fn emit_all(draft: Draft, members: Seq<Plist>) -> (Draft, Seq<nat>)
    decreases members,
{
    if members.len() == 0 {
        (draft, Seq::<nat>::empty())
    } else {
        let (before, refs) = emit_all(draft, members.drop_last());
        let after = emit(before, members.last());
        (after, refs.push((after.offsets.len() - 1) as nat))
    }
}

/// The draft with the objects of `items`, each key before its value, and
/// the numbers of the objects of the keys and of the values themselves.
pub open spec fn emit_items(draft: Draft, items: Seq<(Seq<char>, Plist)>) -> (
    Draft,
    Seq<nat>,
    Seq<nat>,
)
    decreases items,
{
    if items.len() == 0 {
        (draft, Seq::<nat>::empty(), Seq::<nat>::empty())
    } else {
        let (before, keys, values) = emit_items(draft, items.drop_last());
        let keyed = with_object(before, string_object(items.last().0));
        let after = emit(keyed, items.last().1);
        (
            after,
            keys.push((keyed.offsets.len() - 1) as nat),
            values.push((after.offsets.len() - 1) as nat),
        )
    }
}

/// The trailer of a list with offsets and references of eight bytes.
pub open spec fn trailer(count: nat, top: nat, table: nat) -> Seq<u8> {
    seq![0u8, 0u8, 0u8, 0u8, 0u8, 0u8, 8u8, 8u8] + be_bytes(count, 8) + be_bytes(top, 8) + be_bytes(
        table,
        8,
    )
}

/// The binary property list for `value`: the header, the objects, the
/// table of their offsets, the trailer. The root is the last object.
pub open spec fn encoded(value: Plist) -> Seq<u8> {
    let draft = emit(Draft { bytes: magic(), offsets: Seq::<nat>::empty() }, value);
    draft.bytes + refs_bytes(draft.offsets) + trailer(
        draft.offsets.len(),
        (draft.offsets.len() - 1) as nat,
        draft.bytes.len(),
    )
}

/// The draft that a buffer and a vector of offsets stand for.
pub open spec fn draft_of(bytes: Seq<u8>, offsets: Seq<u64>) -> Draft {
    Draft { bytes, offsets: ref_views(offsets) }
}

/// Appends the marker of an object of kind `kind` and length `count`.
fn push_length(bytes: &mut Vec<u8>, kind: u8, count: usize)
    requires
        kind < 16,
    ensures
        final(bytes)@ == old(bytes)@ + length_header(kind as nat, count as nat),
{
    if count < 15 {
        bytes.push(kind * 16 + count as u8);
        proof {
            assert(bytes@ == old(bytes)@ + length_header(kind as nat, count as nat));
        }
    } else {
        bytes.push(kind * 16 + 15);
        bytes.push(0x13);
        let ghost before = bytes@;
        push_uint(bytes, count as u64, 8);
        proof {
            assert(bytes@ == old(bytes)@ + length_header(kind as nat, count as nat));
        }
    }
}

/// Appends references of eight bytes each.
fn push_refs(bytes: &mut Vec<u8>, refs: &Vec<u64>)
    ensures
        final(bytes)@ == old(bytes)@ + refs_bytes(ref_views(refs@)),
{
    let ghost all = ref_views(refs@);
    let mut i: usize = 0;
    proof {
        assert(all.take(0) == Seq::<nat>::empty());
        assert(bytes@ == old(bytes)@ + refs_bytes(all.take(0)));
    }
    while i < refs.len()
        invariant
            i <= refs.len(),
            all == ref_views(refs@),
            bytes@ == old(bytes)@ + refs_bytes(all.take(i as int)),
        decreases refs.len() - i,
    {
        proof {
            assert(all.take(i + 1).drop_last() == all.take(i as int));
            assert(all.take(i + 1).last() == refs[i as int] as nat);
        }
        let ghost before = bytes@;
        push_uint(bytes, refs[i], 8);
        proof {
            assert(bytes@ == old(bytes)@ + refs_bytes(all.take(i + 1)));
        }
        i += 1;
    }
    proof {
        assert(all.take(refs.len() as int) == all);
    }
}

/// Appends all of `part`.
fn push_all(bytes: &mut Vec<u8>, part: &Vec<u8>)
    ensures
        final(bytes)@ == old(bytes)@ + part@,
{
    let mut i: usize = 0;
    proof {
        assert(bytes@ == old(bytes)@ + part@.take(0));
    }
    while i < part.len()
        invariant
            i <= part.len(),
            bytes@ == old(bytes)@ + part@.take(i as int),
        decreases part.len() - i,
    {
        bytes.push(part[i]);
        proof {
            assert(bytes@ == old(bytes)@ + part@.take(i + 1));
        }
        i += 1;
    }
    proof {
        assert(part@.take(part.len() as int) == part@);
    }
}

/// Appends the object for the string `text`.
fn push_string(text: &str, bytes: &mut Vec<u8>, offsets: &mut Vec<u64>)
    ensures
        draft_of(final(bytes)@, final(offsets)@) == with_object(
            draft_of(old(bytes)@, old(offsets)@),
            string_object(text@),
        ),
{
    let ghost start = draft_of(bytes@, offsets@);
    offsets.push(bytes.len() as u64);
    proof {
        assert(ref_views(offsets@) == start.offsets.push(start.bytes.len()));
    }
    let chars = chars_of(text);
    let mut ascii: Vec<u8> = Vec::new();
    let mut plain = true;
    let mut i: usize = 0;
    while i < chars.len() && plain
        invariant
            i <= chars.len(),
            chars@ == text@,
            plain ==> ascii.len() == i,
            plain ==> forall|k: int| 0 <= k < i ==> ((#[trigger] chars@[k]) as u32) < 128,
            plain ==> forall|k: int| 0 <= k < i ==> #[trigger] ascii@[k] == chars@[k] as u32 as u8,
            !plain ==> !is_ascii_text(text@),
        decreases chars.len() - i + if plain { 1int } else { 0int },
    {
        let code = chars[i] as u32;
        if code < 128 {
            let ghost before = ascii@;
            ascii.push(code as u8);
            proof {
                assert forall|k: int| 0 <= k < i + 1 implies #[trigger] ascii@[k] == chars@[k] as u32
                    as u8 by {
                    if k < i {
                        assert(ascii@[k] == before[k]);
                    }
                }
            }
            i += 1;
        } else {
            plain = false;
        }
    }
    if plain {
        proof {
            assert(ascii@ =~= ascii_bytes(text@));
        }
        push_length(bytes, 5, chars.len());
        push_all(bytes, &ascii);
        proof {
            assert(bytes@ == start.bytes + string_object(text@));
        }
    } else {
        let wide = encode_utf16(text);
        proof {
            lemma_utf16_bytes_even(text@);
        }
        push_length(bytes, 6, wide.len() / 2);
        push_all(bytes, &wide);
        proof {
            assert(bytes@ == start.bytes + string_object(text@));
        }
    }
}

/// Appends the objects of `value`.
fn emit_value(value: &PropertyListValue, bytes: &mut Vec<u8>, offsets: &mut Vec<u64>)
    ensures
        draft_of(final(bytes)@, final(offsets)@) == emit(
            draft_of(old(bytes)@, old(offsets)@),
            value@,
        ),
    decreases value,
{
    let ghost start = draft_of(bytes@, offsets@);
    match value {
        PropertyListValue::Boolean(flag) => {
            offsets.push(bytes.len() as u64);
            bytes.push(if *flag { 9 } else { 8 });
            proof {
                assert(ref_views(offsets@) == start.offsets.push(start.bytes.len()));
                assert(bytes@ == start.bytes + seq![if *flag { 9u8 } else { 8u8 }]);
            }
        },
        PropertyListValue::Integer(number) => {
            offsets.push(bytes.len() as u64);
            bytes.push(0x13);
            let raw: u64 = if *number >= 0 {
                *number as u64
            } else {
                (*number - i64::MIN) as u64 + 0x8000_0000_0000_0000
            };
            push_uint(bytes, raw, 8);
            proof {
                assert(ref_views(offsets@) == start.offsets.push(start.bytes.len()));
                assert(bytes@ == start.bytes + (seq![0x13u8] + be_bytes(twos(*number as int), 8)));
            }
        },
        PropertyListValue::Data(data) => {
            offsets.push(bytes.len() as u64);
            push_length(bytes, 4, data.len());
            push_all(bytes, data);
            proof {
                assert(ref_views(offsets@) == start.offsets.push(start.bytes.len()));
                assert(bytes@ == start.bytes + (length_header(4, data@.len()) + data@));
            }
        },
        PropertyListValue::String(text) => {
            push_string(text.as_str(), bytes, offsets);
        },
        PropertyListValue::Array(members) => {
            let ghost all = member_views(members@);
            proof {
                lemma_plists_of(members@);
            }
            let mut refs: Vec<u64> = Vec::new();
            let mut i: usize = 0;
            proof {
                assert(all.take(0) == Seq::<Plist>::empty());
                assert(ref_views(refs@) == Seq::<nat>::empty());
            }
            while i < members.len()
                invariant
                    i <= members.len(),
                    all == member_views(members@),
                    value == PropertyListValue::Array(*members),
                    emit_all(start, all.take(i as int)) == (
                        draft_of(bytes@, offsets@),
                        ref_views(refs@),
                    ),
                decreases members.len() - i,
            {
                proof {
                    assert(all.take(i + 1).drop_last() == all.take(i as int));
                    assert(all.take(i + 1).last() == members[i as int]@);
                }
                proof {
                    vstd::std_specs::vec::axiom_vec_index_decreases(*members, i as int);
                    assert(value->Array_0 == *members);
                    assert(decreases_to!(*value => value->Array_0));
                }
                emit_value(&members[i], bytes, offsets);
                proof {
                    lemma_emit_extends(emit_all(start, all.take(i as int)).0, members[i as int]@);
                    assert(ref_views(offsets@).len() == offsets.len());
                }
                let ghost before = ref_views(refs@);
                refs.push((offsets.len() - 1) as u64);
                proof {
                    assert(ref_views(refs@) == before.push((offsets.len() - 1) as nat));
                }
                i += 1;
            }
            proof {
                assert(all.take(members.len() as int) == all);
            }
            let ghost after = draft_of(bytes@, offsets@);
            offsets.push(bytes.len() as u64);
            push_length(bytes, 10, members.len());
            push_refs(bytes, &refs);
            proof {
                assert(ref_views(offsets@) == after.offsets.push(after.bytes.len()));
                assert(bytes@ == after.bytes + (length_header(10, all.len()) + refs_bytes(
                    ref_views(refs@),
                )));
            }
        },
        PropertyListValue::Dictionary(items) => {
            let ghost all = item_views(items@);
            proof {
                lemma_items_of(items@);
            }
            let mut keys: Vec<u64> = Vec::new();
            let mut values: Vec<u64> = Vec::new();
            let mut i: usize = 0;
            proof {
                assert(all.take(0) == Seq::<(Seq<char>, Plist)>::empty());
                assert(ref_views(keys@) == Seq::<nat>::empty());
                assert(ref_views(values@) == Seq::<nat>::empty());
            }
            while i < items.len()
                invariant
                    i <= items.len(),
                    all == item_views(items@),
                    value == PropertyListValue::Dictionary(*items),
                    emit_items(start, all.take(i as int)) == (
                        draft_of(bytes@, offsets@),
                        ref_views(keys@),
                        ref_views(values@),
                    ),
                decreases items.len() - i,
            {
                proof {
                    assert(all.take(i + 1).drop_last() == all.take(i as int));
                    assert(all.take(i + 1).last() == (items[i as int].0@, items[i as int].1@));
                }
                push_string(items[i].0.as_str(), bytes, offsets);
                proof {
                    assert(ref_views(offsets@).len() == offsets.len());
                }
                let ghost before = ref_views(keys@);
                keys.push((offsets.len() - 1) as u64);
                proof {
                    assert(ref_views(keys@) == before.push((offsets.len() - 1) as nat));
                }
                let ghost keyed = draft_of(bytes@, offsets@);
                proof {
                    vstd::std_specs::vec::axiom_vec_index_decreases(*items, i as int);
                    assert(value->Dictionary_0 == *items);
                    assert(decreases_to!(*value => value->Dictionary_0));
                }
                emit_value(&items[i].1, bytes, offsets);
                proof {
                    lemma_emit_extends(keyed, items[i as int].1@);
                    assert(ref_views(offsets@).len() == offsets.len());
                }
                let ghost before = ref_views(values@);
                values.push((offsets.len() - 1) as u64);
                proof {
                    assert(ref_views(values@) == before.push((offsets.len() - 1) as nat));
                }
                i += 1;
            }
            proof {
                assert(all.take(items.len() as int) == all);
            }
            let ghost after = draft_of(bytes@, offsets@);
            offsets.push(bytes.len() as u64);
            push_length(bytes, 13, items.len());
            push_refs(bytes, &keys);
            push_refs(bytes, &values);
            proof {
                assert(ref_views(offsets@) == after.offsets.push(after.bytes.len()));
                assert(bytes@ == after.bytes + (length_header(13, all.len()) + refs_bytes(
                    ref_views(keys@),
                ) + refs_bytes(ref_views(values@))));
            }
        },
    }
}

/// `longer` begins with `shorter`.
pub open spec fn extends<T>(longer: Seq<T>, shorter: Seq<T>) -> bool {
    shorter.len() <= longer.len() && longer.take(shorter.len() as int) == shorter
}

/// Emitting a value keeps what the draft holds and adds at least the
/// value's own object.
pub proof fn lemma_emit_extends(draft: Draft, value: Plist)
    ensures
        extends(emit(draft, value).bytes, draft.bytes),
        extends(emit(draft, value).offsets, draft.offsets),
        emit(draft, value).offsets.len() > draft.offsets.len(),
    decreases value,
{
    match value {
        Plist::Array(members) => {
            lemma_emit_all_extends(draft, members);
            let (after, refs) = emit_all(draft, members);
            lemma_with_object_extends(
                after,
                length_header(10, members.len()) + refs_bytes(refs),
            );
            lemma_extends_transitive(emit(draft, value).bytes, after.bytes, draft.bytes);
            lemma_extends_transitive(emit(draft, value).offsets, after.offsets, draft.offsets);
        },
        Plist::Dictionary(items) => {
            lemma_emit_items_extends(draft, items);
            let (after, keys, values) = emit_items(draft, items);
            lemma_with_object_extends(
                after,
                length_header(13, items.len()) + refs_bytes(keys) + refs_bytes(values),
            );
            lemma_extends_transitive(emit(draft, value).bytes, after.bytes, draft.bytes);
            lemma_extends_transitive(emit(draft, value).offsets, after.offsets, draft.offsets);
        },
        Plist::Boolean(flag) => {
            lemma_with_object_extends(draft, seq![if flag { 9u8 } else { 8u8 }]);
        },
        Plist::Integer(number) => {
            lemma_with_object_extends(draft, seq![0x13u8] + be_bytes(twos(number), 8));
        },
        Plist::Data(data) => {
            lemma_with_object_extends(draft, length_header(4, data.len()) + data);
        },
        Plist::String(text) => {
            lemma_with_object_extends(draft, string_object(text));
        },
    }
}

/// A draft with one more object keeps what it held.
pub proof fn lemma_with_object_extends(draft: Draft, body: Seq<u8>)
    ensures
        extends(with_object(draft, body).bytes, draft.bytes),
        extends(with_object(draft, body).offsets, draft.offsets),
        with_object(draft, body).offsets.len() == draft.offsets.len() + 1,
{
    assert(with_object(draft, body).bytes.take(draft.bytes.len() as int) == draft.bytes);
    assert(with_object(draft, body).offsets.take(draft.offsets.len() as int) == draft.offsets);
}

/// What begins with a sequence that begins with a third begins with the
/// third.
pub proof fn lemma_extends_transitive<T>(long: Seq<T>, middle: Seq<T>, short: Seq<T>)
    requires
        extends(long, middle),
        extends(middle, short),
    ensures
        extends(long, short),
{
    assert(long.take(short.len() as int) == long.take(middle.len() as int).take(
        short.len() as int,
    ));
}

/// Emitting members keeps what the draft holds.
pub proof fn lemma_emit_all_extends(draft: Draft, members: Seq<Plist>)
    ensures
        extends(emit_all(draft, members).0.bytes, draft.bytes),
        extends(emit_all(draft, members).0.offsets, draft.offsets),
        emit_all(draft, members).1.len() == members.len(),
    decreases members,
{
    if members.len() > 0 {
        lemma_emit_all_extends(draft, members.drop_last());
        let before = emit_all(draft, members.drop_last()).0;
        lemma_emit_extends(before, members.last());
        let after = emit(before, members.last());
        lemma_extends_transitive(after.bytes, before.bytes, draft.bytes);
        lemma_extends_transitive(after.offsets, before.offsets, draft.offsets);
    } else {
        assert(draft.bytes.take(draft.bytes.len() as int) == draft.bytes);
        assert(draft.offsets.take(draft.offsets.len() as int) == draft.offsets);
    }
}

/// Emitting items keeps what the draft holds.
pub proof fn lemma_emit_items_extends(draft: Draft, items: Seq<(Seq<char>, Plist)>)
    ensures
        extends(emit_items(draft, items).0.bytes, draft.bytes),
        extends(emit_items(draft, items).0.offsets, draft.offsets),
        emit_items(draft, items).1.len() == items.len(),
        emit_items(draft, items).2.len() == items.len(),
    decreases items,
{
    if items.len() > 0 {
        lemma_emit_items_extends(draft, items.drop_last());
        let before = emit_items(draft, items.drop_last()).0;
        let keyed = with_object(before, string_object(items.last().0));
        lemma_with_object_extends(before, string_object(items.last().0));
        lemma_emit_extends(keyed, items.last().1);
        let after = emit(keyed, items.last().1);
        lemma_extends_transitive(keyed.bytes, before.bytes, draft.bytes);
        lemma_extends_transitive(keyed.offsets, before.offsets, draft.offsets);
        lemma_extends_transitive(after.bytes, keyed.bytes, draft.bytes);
        lemma_extends_transitive(after.offsets, keyed.offsets, draft.offsets);
    } else {
        assert(draft.bytes.take(draft.bytes.len() as int) == draft.bytes);
        assert(draft.offsets.take(draft.offsets.len() as int) == draft.offsets);
    }
}

impl PropertyListDocument {
    /// Writes the document as a binary property list.
    pub fn encode(&self) -> (bytes: Vec<u8>)
        ensures
            bytes@ == encoded(self@),
    {
        let mut bytes: Vec<u8> = Vec::new();
        bytes.push(0x62);
        bytes.push(0x70);
        bytes.push(0x6C);
        bytes.push(0x69);
        bytes.push(0x73);
        bytes.push(0x74);
        bytes.push(0x30);
        bytes.push(0x30);
        let mut offsets: Vec<u64> = Vec::new();
        proof {
            assert(bytes@ == magic());
            assert(ref_views(offsets@) == Seq::<nat>::empty());
        }
        emit_value(&self.root, &mut bytes, &mut offsets);
        proof {
            lemma_emit_extends(Draft { bytes: magic(), offsets: Seq::<nat>::empty() }, self@);
            assert(ref_views(offsets@).len() == offsets.len());
        }
        let ghost draft = draft_of(bytes@, offsets@);
        let table = bytes.len() as u64;
        let count = offsets.len() as u64;
        push_refs(&mut bytes, &offsets);
        bytes.push(0);
        bytes.push(0);
        bytes.push(0);
        bytes.push(0);
        bytes.push(0);
        bytes.push(0);
        bytes.push(8);
        bytes.push(8);
        push_uint(&mut bytes, count, 8);
        push_uint(&mut bytes, count - 1, 8);
        push_uint(&mut bytes, table, 8);
        proof {
            assert(bytes@ == draft.bytes + refs_bytes(draft.offsets) + trailer(
                draft.offsets.len(),
                (draft.offsets.len() - 1) as nat,
                draft.bytes.len(),
            ));
        }
        bytes
    }
}

} // verus!
