use ipa_personalizer::bplist::keys_distinct;
use ipa_personalizer::bytes::{push_uint, read_uint};
use ipa_personalizer::error::{DecodeError, DocumentError};
use ipa_personalizer::plist::{PropertyListDocument, PropertyListValue};
use ipa_personalizer::utf16::{decode_utf16, encode_utf16};

const PLIST_XML_HEAD: &str = "<?xml version=\"1.0\" encoding=\"UTF-8\"?>\n<!DOCTYPE plist PUBLIC \"-//Apple//DTD PLIST 1.0//EN\" \"http://www.apple.com/DTDs/PropertyList-1.0.dtd\">\n<plist version=\"1.0\">\n";

fn plist_text(s: &str) -> PropertyListValue {
    PropertyListValue::String(s.to_string())
}

fn plist_dict(items: Vec<(&str, PropertyListValue)>) -> PropertyListValue {
    PropertyListValue::Dictionary(items.into_iter().map(|(k, v)| (k.to_string(), v)).collect())
}

fn plist_trailer(offset_width: u8, ref_width: u8, count: u64, top: u64, table: u64) -> Vec<u8> {
    let mut trailer = vec![0, 0, 0, 0, 0, 0, offset_width, ref_width];
    trailer.extend_from_slice(&count.to_be_bytes());
    trailer.extend_from_slice(&top.to_be_bytes());
    trailer.extend_from_slice(&table.to_be_bytes());
    trailer
}

/// A list as common tools write it: the root first, offsets and references
/// of one byte.
fn plist_compact_sample() -> Vec<u8> {
    let mut bytes = b"bplist00".to_vec();
    // object 0 at 8: dictionary of two items, keys 1 and 2, values 3 and 4
    bytes.extend_from_slice(&[0xD2, 1, 2, 3, 4]);
    // object 1 at 13: "name"
    bytes.extend_from_slice(&[0x54]);
    bytes.extend_from_slice(b"name");
    // object 2 at 18: "list"
    bytes.extend_from_slice(&[0x54]);
    bytes.extend_from_slice(b"list");
    // object 3 at 23: "App"
    bytes.extend_from_slice(&[0x53]);
    bytes.extend_from_slice(b"App");
    // object 4 at 27: array of objects 5, 6, 7, 8
    bytes.extend_from_slice(&[0xA4, 5, 6, 7, 8]);
    // object 5 at 32: true
    bytes.push(0x09);
    // object 6 at 33: integer 258 in two bytes
    bytes.extend_from_slice(&[0x11, 0x01, 0x02]);
    // object 7 at 36: data of three bytes
    bytes.extend_from_slice(&[0x43, 0xDE, 0xAD, 0xFF]);
    // object 8 at 40: integer -2 in eight bytes
    bytes.extend_from_slice(&[0x13, 0xFF, 0xFF, 0xFF, 0xFF, 0xFF, 0xFF, 0xFF, 0xFE]);
    // table at 49
    bytes.extend_from_slice(&[8, 13, 18, 23, 27, 32, 33, 36, 40]);
    bytes.extend_from_slice(&plist_trailer(1, 1, 9, 0, 49));
    bytes
}

fn plist_sample_value() -> PropertyListValue {
    plist_dict(vec![
        ("name", plist_text("App")),
        (
            "list",
            PropertyListValue::Array(vec![
                PropertyListValue::Boolean(true),
                PropertyListValue::Integer(258),
                PropertyListValue::Data(vec![0xDE, 0xAD, 0xFF]),
                PropertyListValue::Integer(-2),
            ]),
        ),
    ])
}

fn plist_empty_dictionary() -> Vec<u8> {
    let mut bytes = b"bplist00".to_vec();
    bytes.push(0xD0);
    bytes.push(8);
    bytes.extend_from_slice(&plist_trailer(1, 1, 1, 0, 9));
    bytes
}

fn plist_single(object: &[u8]) -> Vec<u8> {
    let mut bytes = b"bplist00".to_vec();
    bytes.extend_from_slice(object);
    let table = bytes.len() as u64;
    bytes.push(8);
    bytes.extend_from_slice(&plist_trailer(1, 1, 1, 0, table));
    bytes
}

#[test]
fn decode_reads_a_compact_list() {
    let document = PropertyListDocument::decode(&plist_compact_sample()).unwrap();
    assert_eq!(document.root, plist_sample_value());
}

#[test]
fn decode_reads_an_empty_dictionary() {
    let document = PropertyListDocument::decode(&plist_empty_dictionary()).unwrap();
    assert_eq!(document.root, PropertyListValue::Dictionary(vec![]));
    assert_eq!(document, PropertyListDocument::new());
}

#[test]
fn encode_writes_the_objects_before_the_table_and_trailer() {
    let bytes = PropertyListDocument::new().encode();
    let mut expected = b"bplist00".to_vec();
    expected.push(0xD0);
    expected.extend_from_slice(&8u64.to_be_bytes());
    expected.extend_from_slice(&plist_trailer(8, 8, 1, 0, 9));
    assert_eq!(bytes, expected);
}

#[test]
fn encode_writes_parts_before_the_whole() {
    let document = PropertyListDocument { root: plist_dict(vec![("k", PropertyListValue::Boolean(false))]) };
    let bytes = document.encode();
    let mut expected = b"bplist00".to_vec();
    expected.extend_from_slice(&[0x51, b'k']);
    expected.push(0x08);
    expected.push(0xD1);
    expected.extend_from_slice(&0u64.to_be_bytes());
    expected.extend_from_slice(&1u64.to_be_bytes());
    for offset in [8u64, 10, 11] {
        expected.extend_from_slice(&offset.to_be_bytes());
    }
    expected.extend_from_slice(&plist_trailer(8, 8, 3, 2, 28));
    assert_eq!(bytes, expected);
}

#[test]
fn decode_after_encode_gives_the_document_again() {
    let document = PropertyListDocument { root: plist_sample_value() };
    let bytes = document.encode();
    let again = PropertyListDocument::decode(&bytes).unwrap();
    assert_eq!(again, document);
    assert_eq!(again.encode(), bytes);
}

#[test]
fn encode_after_decode_is_stable() {
    let first = PropertyListDocument::decode(&plist_compact_sample()).unwrap().encode();
    let second = PropertyListDocument::decode(&first).unwrap().encode();
    assert_eq!(first, second);
}

#[test]
fn round_trip_keeps_long_and_wide_values() {
    let long_text: String = "x".repeat(300);
    let wide_text = "caf\u{e9} \u{4e2d}\u{6587} \u{1F600}!";
    let many: Vec<PropertyListValue> = (0..40).map(|i| PropertyListValue::Integer(i * 1000 - 7)).collect();
    let document = PropertyListDocument {
        root: plist_dict(vec![
            ("long", plist_text(&long_text)),
            ("wide", plist_text(wide_text)),
            ("w\u{ef}de key", plist_text("")),
            ("data", PropertyListValue::Data((0..=255u8).collect())),
            ("many", PropertyListValue::Array(many)),
            ("least", PropertyListValue::Integer(i64::MIN)),
            ("most", PropertyListValue::Integer(i64::MAX)),
            ("zero", PropertyListValue::Integer(0)),
            (
                "nested",
                plist_dict(vec![(
                    "deeper",
                    PropertyListValue::Array(vec![plist_dict(vec![]), PropertyListValue::Array(vec![])]),
                )]),
            ),
        ]),
    };
    let bytes = document.encode();
    assert_eq!(PropertyListDocument::decode(&bytes).unwrap(), document);
}

fn plist_nested(levels: usize) -> PropertyListValue {
    let mut value = PropertyListValue::Boolean(true);
    for _ in 0..levels {
        value = PropertyListValue::Array(vec![value]);
    }
    value
}

#[test]
fn decode_reads_no_deeper_than_the_limit() {
    assert_eq!(ipa_personalizer::bplist::DEPTH_LIMIT, 512);
    let deepest = PropertyListDocument { root: plist_nested(511) };
    assert_eq!(PropertyListDocument::decode(&deepest.encode()).unwrap(), deepest);
    let too_deep = PropertyListDocument { root: plist_nested(512) };
    assert_eq!(
        PropertyListDocument::decode(&too_deep.encode()).err(),
        Some(DecodeError::Malformed)
    );
}

#[test]
fn decode_refuses_what_encode_writes_for_a_key_that_comes_twice() {
    let document = PropertyListDocument {
        root: plist_dict(vec![
            ("a", PropertyListValue::Boolean(true)),
            ("a", PropertyListValue::Boolean(false)),
        ]),
    };
    assert_eq!(PropertyListDocument::decode(&document.encode()).err(), Some(DecodeError::Malformed));
}

#[test]
fn round_trip_keeps_a_root_that_is_no_dictionary() {
    for root in [
        plist_text("alone"),
        PropertyListValue::Boolean(true),
        PropertyListValue::Integer(-1),
        PropertyListValue::Data(vec![]),
        PropertyListValue::Array(vec![plist_text("a")]),
    ] {
        let document = PropertyListDocument { root };
        assert_eq!(PropertyListDocument::decode(&document.encode()).unwrap(), document);
    }
}

#[test]
fn decode_reads_wide_strings() {
    let document = PropertyListDocument::decode(&plist_single(&[0x62, 0x00, 0xE9, 0x4E, 0x2D])).unwrap();
    assert_eq!(document.root, plist_text("\u{e9}\u{4e2d}"));
    let document =
        PropertyListDocument::decode(&plist_single(&[0x62, 0xD8, 0x3D, 0xDE, 0x00])).unwrap();
    assert_eq!(document.root, plist_text("\u{1F600}"));
}

#[test]
fn decode_reads_integers_of_all_widths() {
    let cases: Vec<(Vec<u8>, i64)> = vec![
        (vec![0x10, 0xFF], 255),
        (vec![0x11, 0xFF, 0xFF], 65535),
        (vec![0x12, 0xFF, 0xFF, 0xFF, 0xFF], 4294967295),
        (vec![0x13, 0, 0, 0, 0, 0, 0, 0, 1], 1),
        (vec![0x13, 0x7F, 0xFF, 0xFF, 0xFF, 0xFF, 0xFF, 0xFF, 0xFF], i64::MAX),
        (vec![0x13, 0x80, 0, 0, 0, 0, 0, 0, 0], i64::MIN),
        (vec![0x13, 0xFF, 0xFF, 0xFF, 0xFF, 0xFF, 0xFF, 0xFF, 0xFF], -1),
    ];
    for (object, expected) in cases {
        let document = PropertyListDocument::decode(&plist_single(&object)).unwrap();
        assert_eq!(document.root, PropertyListValue::Integer(expected));
    }
}

#[test]
fn decode_reads_a_length_that_follows_the_marker() {
    let mut object = vec![0x5F, 0x10, 20];
    object.extend_from_slice(b"twenty characters!!!");
    let document = PropertyListDocument::decode(&plist_single(&object)).unwrap();
    assert_eq!(document.root, plist_text("twenty characters!!!"));
}

#[test]
fn decode_refuses_bytes_without_the_header() {
    assert_eq!(PropertyListDocument::decode(&vec![]).err(), Some(DecodeError::NotAPropertyList));
    assert_eq!(PropertyListDocument::decode(&b"bplist0".to_vec()).err(), Some(DecodeError::NotAPropertyList));
    assert_eq!(
        PropertyListDocument::decode(&b"<?xml version=\"1.0\"?><plist><dict/></plist>".to_vec()).err(),
        Some(DecodeError::NotAPropertyList)
    );
    let mut bytes = plist_empty_dictionary();
    bytes[7] = b'1';
    assert_eq!(PropertyListDocument::decode(&bytes).err(), Some(DecodeError::NotAPropertyList));
}

#[test]
fn decode_refuses_truncated_bytes() {
    assert_eq!(PropertyListDocument::decode(&b"bplist00".to_vec()).err(), Some(DecodeError::TruncatedData));
    let mut short = plist_empty_dictionary();
    short.truncate(39);
    assert_eq!(PropertyListDocument::decode(&short).err(), Some(DecodeError::TruncatedData));
    // a string that says it is longer than what is left
    assert_eq!(
        PropertyListDocument::decode(&plist_single(&[0x5F, 0x11, 0xFF, 0xFF, b'a'])).err(),
        Some(DecodeError::TruncatedData)
    );
    assert_eq!(
        PropertyListDocument::decode(&plist_single(&[0x4F, 0x12, 0xFF, 0xFF, 0xFF, 0xFF])).err(),
        Some(DecodeError::TruncatedData)
    );
    assert_eq!(
        PropertyListDocument::decode(&plist_single(&[0xAF, 0x10, 0xFF])).err(),
        Some(DecodeError::TruncatedData)
    );
    assert_eq!(
        PropertyListDocument::decode(&plist_single(&[0xDF, 0x10, 30])).err(),
        Some(DecodeError::TruncatedData)
    );
    // a table that lies behind the trailer
    let mut bytes = plist_empty_dictionary();
    let n = bytes.len();
    bytes[n - 1] = 200;
    assert_eq!(PropertyListDocument::decode(&bytes).err(), Some(DecodeError::TruncatedData));
    // more objects than the table has room for
    let mut bytes = plist_empty_dictionary();
    let n = bytes.len();
    bytes[n - 17] = 2;
    assert_eq!(PropertyListDocument::decode(&bytes).err(), Some(DecodeError::TruncatedData));
    // an object whose offset points behind the end
    let mut bytes = plist_empty_dictionary();
    bytes[9] = 250;
    assert_eq!(PropertyListDocument::decode(&bytes).err(), Some(DecodeError::TruncatedData));
    // an integer cut short
    let mut bytes = b"bplist00".to_vec();
    bytes.extend_from_slice(&[0; 11]);
    bytes.push(51);
    bytes.extend_from_slice(&plist_trailer(1, 1, 1, 0, 19));
    assert_eq!(bytes[51], 0x13);
    assert_eq!(PropertyListDocument::decode(&bytes).err(), Some(DecodeError::TruncatedData));
}

#[test]
fn decode_refuses_a_list_that_contradicts_itself() {
    // widths out of range
    let mut bytes = plist_empty_dictionary();
    let n = bytes.len();
    bytes[n - 26] = 0;
    assert_eq!(PropertyListDocument::decode(&bytes).err(), Some(DecodeError::Malformed));
    let mut bytes = plist_empty_dictionary();
    bytes[n - 25] = 9;
    assert_eq!(PropertyListDocument::decode(&bytes).err(), Some(DecodeError::Malformed));
    // no objects, or a root that is none of them
    let mut bytes = plist_empty_dictionary();
    bytes[n - 17] = 0;
    assert_eq!(PropertyListDocument::decode(&bytes).err(), Some(DecodeError::Malformed));
    let mut bytes = plist_empty_dictionary();
    bytes[n - 9] = 1;
    assert_eq!(PropertyListDocument::decode(&bytes).err(), Some(DecodeError::Malformed));
    // a table inside the header
    let mut bytes = plist_empty_dictionary();
    bytes[n - 1] = 7;
    assert_eq!(PropertyListDocument::decode(&bytes).err(), Some(DecodeError::Malformed));
    // a reference to an object that is not there
    assert_eq!(
        PropertyListDocument::decode(&plist_single(&[0xA1, 5])).err(),
        Some(DecodeError::Malformed)
    );
    // an array that holds itself
    assert_eq!(
        PropertyListDocument::decode(&plist_single(&[0xA1, 0])).err(),
        Some(DecodeError::Malformed)
    );
    // a marker that the format does not know
    assert_eq!(PropertyListDocument::decode(&plist_single(&[0x70])).err(), Some(DecodeError::Malformed));
    // an ASCII string that is none
    assert_eq!(
        PropertyListDocument::decode(&plist_single(&[0x51, 0xE9])).err(),
        Some(DecodeError::Malformed)
    );
    // a surrogate out of place
    assert_eq!(
        PropertyListDocument::decode(&plist_single(&[0x61, 0xDC, 0x00])).err(),
        Some(DecodeError::Malformed)
    );
    assert_eq!(
        PropertyListDocument::decode(&plist_single(&[0x61, 0xD8, 0x3D])).err(),
        Some(DecodeError::Malformed)
    );
}

#[test]
fn decode_refuses_a_key_that_is_no_string_or_comes_twice() {
    let mut bytes = b"bplist00".to_vec();
    bytes.extend_from_slice(&[0xD1, 1, 1]);
    bytes.push(0x09);
    bytes.extend_from_slice(&[8, 11]);
    bytes.extend_from_slice(&plist_trailer(1, 1, 2, 0, 12));
    assert_eq!(PropertyListDocument::decode(&bytes).err(), Some(DecodeError::Malformed));
    let mut bytes = b"bplist00".to_vec();
    bytes.extend_from_slice(&[0xD2, 1, 1, 2, 2]);
    bytes.extend_from_slice(&[0x51, b'k']);
    bytes.push(0x09);
    bytes.extend_from_slice(&[8, 13, 15]);
    bytes.extend_from_slice(&plist_trailer(1, 1, 3, 0, 16));
    assert_eq!(PropertyListDocument::decode(&bytes).err(), Some(DecodeError::Malformed));
}

#[test]
fn decode_leaves_other_kinds_of_values_aside() {
    for object in [
        vec![0x00],
        vec![0x23, 0, 0, 0, 0, 0, 0, 0, 0],
        vec![0x33, 0, 0, 0, 0, 0, 0, 0, 0],
        vec![0x80, 1],
        vec![0x14, 0, 0, 0, 0, 0, 0, 0, 0, 0, 0, 0, 0, 0, 0, 0, 0],
    ] {
        assert_eq!(
            PropertyListDocument::decode(&plist_single(&object)).err(),
            Some(DecodeError::Unsupported)
        );
    }
}

#[test]
fn set_then_get_gives_what_was_written() {
    let mut document = PropertyListDocument::decode(&plist_compact_sample()).unwrap();
    document.set_dictionary_item("ALTDeviceID", plist_text("ABCD1234")).unwrap();
    document.set_dictionary_item("name", plist_text("Other")).unwrap();
    document.set_dictionary_item("customAnisetteURL", plist_text("https://example.com/")).unwrap();
    assert_eq!(document.get_dictionary_item("ALTDeviceID"), Ok(Some(&plist_text("ABCD1234"))));
    assert_eq!(document.get_dictionary_item("name"), Ok(Some(&plist_text("Other"))));
    assert_eq!(
        document.get_dictionary_item("customAnisetteURL"),
        Ok(Some(&plist_text("https://example.com/")))
    );
    assert_eq!(document.get_dictionary_item("absent"), Ok(None));
}

#[test]
fn set_overwrites_in_place_and_appends_new_keys() {
    let mut document = PropertyListDocument {
        root: plist_dict(vec![
            ("a", PropertyListValue::Integer(1)),
            ("b", PropertyListValue::Integer(2)),
            ("c", PropertyListValue::Integer(3)),
        ]),
    };
    document.set_dictionary_item("b", plist_text("two")).unwrap();
    document.set_dictionary_item("d", PropertyListValue::Boolean(true)).unwrap();
    assert_eq!(
        document.root,
        plist_dict(vec![
            ("a", PropertyListValue::Integer(1)),
            ("b", plist_text("two")),
            ("c", PropertyListValue::Integer(3)),
            ("d", PropertyListValue::Boolean(true)),
        ])
    );
}

#[test]
fn get_and_set_refuse_a_root_that_is_no_dictionary() {
    let mut document = PropertyListDocument { root: PropertyListValue::Array(vec![plist_text("a")]) };
    assert_eq!(document.get_dictionary_item("a"), Err(DocumentError::WrongRootType));
    assert_eq!(
        document.set_dictionary_item("a", PropertyListValue::Boolean(true)),
        Err(DocumentError::WrongRootType)
    );
    assert_eq!(document.root, PropertyListValue::Array(vec![plist_text("a")]));
}

#[test]
fn to_xml_writes_a_dictionary() {
    let document = PropertyListDocument { root: plist_dict(vec![("UDID", plist_text("ABCD1234"))]) };
    let expected = format!(
        "{}<dict>\n\t<key>UDID</key>\n\t<string>ABCD1234</string>\n</dict>\n</plist>\n",
        PLIST_XML_HEAD
    );
    assert_eq!(document.to_xml(), expected);
}

#[test]
fn to_xml_writes_every_kind_of_value() {
    let document = PropertyListDocument {
        root: plist_dict(vec![
            ("a<b", plist_text("x & y > z")),
            ("t", PropertyListValue::Boolean(true)),
            ("f", PropertyListValue::Boolean(false)),
            ("n", PropertyListValue::Integer(-9223372036854775808)),
            ("p", PropertyListValue::Integer(1234567890)),
            ("z", PropertyListValue::Integer(0)),
            ("d", PropertyListValue::Data(b"any carnal pleas".to_vec())),
            (
                "l",
                PropertyListValue::Array(vec![plist_dict(vec![]), PropertyListValue::Integer(7)]),
            ),
        ]),
    };
    let expected = format!(
        "{}{}",
        PLIST_XML_HEAD,
        concat_lines(&[
            "<dict>",
            "\t<key>a&lt;b</key>",
            "\t<string>x &amp; y &gt; z</string>",
            "\t<key>t</key>",
            "\t<true/>",
            "\t<key>f</key>",
            "\t<false/>",
            "\t<key>n</key>",
            "\t<integer>-9223372036854775808</integer>",
            "\t<key>p</key>",
            "\t<integer>1234567890</integer>",
            "\t<key>z</key>",
            "\t<integer>0</integer>",
            "\t<key>d</key>",
            "\t<data>YW55IGNhcm5hbCBwbGVhcw==</data>",
            "\t<key>l</key>",
            "\t<array>",
            "\t\t<dict>",
            "\t\t</dict>",
            "\t\t<integer>7</integer>",
            "\t</array>",
            "</dict>",
            "</plist>",
        ])
    );
    assert_eq!(document.to_xml(), expected);
}

fn concat_lines(lines: &[&str]) -> String {
    let mut text = String::new();
    for line in lines {
        text.push_str(line);
        text.push('\n');
    }
    text
}

#[test]
fn to_xml_pads_base64_to_groups_of_four() {
    let cases = [
        ("", ""),
        ("f", "Zg=="),
        ("fo", "Zm8="),
        ("foo", "Zm9v"),
        ("foob", "Zm9vYg=="),
        ("fooba", "Zm9vYmE="),
        ("foobar", "Zm9vYmFy"),
    ];
    for (plain, expected) in cases {
        let document = PropertyListDocument { root: PropertyListValue::Data(plain.as_bytes().to_vec()) };
        assert_eq!(
            document.to_xml(),
            format!("{}<data>{}</data>\n</plist>\n", PLIST_XML_HEAD, expected)
        );
    }
    let document = PropertyListDocument { root: PropertyListValue::Data(vec![0xFB, 0xFF, 0xBF]) };
    assert_eq!(document.to_xml(), format!("{}<data>+/+/</data>\n</plist>\n", PLIST_XML_HEAD));
}

#[test]
fn utf16_turns_text_into_units_and_back() {
    assert_eq!(encode_utf16("A\u{e9}"), vec![0x00, 0x41, 0x00, 0xE9]);
    assert_eq!(encode_utf16("\u{1F600}"), vec![0xD8, 0x3D, 0xDE, 0x00]);
    assert_eq!(encode_utf16("\u{FFFF}\u{10000}"), vec![0xFF, 0xFF, 0xD8, 0x00, 0xDC, 0x00]);
    for text in ["", "plain", "caf\u{e9}", "\u{4e2d}\u{6587}", "a\u{1F600}b\u{10FFFF}"] {
        let units = encode_utf16(text);
        let mut padded = vec![7u8];
        padded.extend_from_slice(&units);
        padded.push(9);
        assert_eq!(decode_utf16(&padded, 1, units.len()), Some(text.to_string()));
    }
    assert_eq!(decode_utf16(&vec![0x00], 0, 1), None);
    assert_eq!(decode_utf16(&vec![0xD8, 0x00, 0x00, 0x41], 0, 4), None);
}

#[test]
fn integers_are_written_and_read_most_significant_byte_first() {
    let mut buffer = vec![0xAA];
    push_uint(&mut buffer, 0x0102030405060708, 8);
    push_uint(&mut buffer, 0x0102, 2);
    push_uint(&mut buffer, 0x01020304, 2);
    push_uint(&mut buffer, 5, 0);
    assert_eq!(buffer, vec![0xAA, 1, 2, 3, 4, 5, 6, 7, 8, 1, 2, 3, 4]);
    assert_eq!(read_uint(&buffer, 1, 8), 0x0102030405060708);
    assert_eq!(read_uint(&buffer, 9, 2), 0x0102);
    assert_eq!(read_uint(&buffer, 0, 1), 0xAA);
    assert_eq!(read_uint(&buffer, 3, 0), 0);
    assert_eq!(read_uint(&buffer, 10, 3), 0x020304);
}

#[test]
fn keys_distinct_finds_a_key_that_comes_twice() {
    let items = |keys: &[&str]| -> Vec<(String, PropertyListValue)> {
        keys.iter().map(|k| (k.to_string(), PropertyListValue::Boolean(true))).collect()
    };
    assert!(keys_distinct(&items(&[])));
    assert!(keys_distinct(&items(&["a", "b", "c"])));
    assert!(!keys_distinct(&items(&["a", "b", "a"])));
    assert!(!keys_distinct(&items(&["a", "b", "b"])));
}
