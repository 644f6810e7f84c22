use vstd::prelude::*;
use vstd::string::StringExecFns;
use crate::plist::{
    item_views, lemma_items_of, lemma_plists_of, member_views, Plist, PropertyListDocument,
    PropertyListValue,
};
use crate::text::chars_of;

verus! {

/// `text` with the three characters that XML reserves written as entities.
pub open spec fn escaped(text: Seq<char>) -> Seq<char>
    decreases text.len(),
{
    if text.len() == 0 {
        Seq::<char>::empty()
    } else {
        let before = escaped(text.drop_last());
        let c = text.last();
        if c == '&' {
            before + "&amp;"@
        } else if c == '<' {
            before + "&lt;"@
        } else if c == '>' {
            before + "&gt;"@
        } else {
            before.push(c)
        }
    }
}

/// The character of the decimal digit `digit`.
pub open spec fn digit_char(digit: nat) -> char {
    ((48 + digit) as u8) as char
}

/// The decimal digits of `number`.
pub open spec fn digits(number: nat) -> Seq<char>
    decreases number,
{
    if number < 10 {
        seq![digit_char(number)]
    } else {
        digits(number / 10).push(digit_char(number % 10))
    }
}

/// `number` in decimal, with a minus sign where it is negative.
pub open spec fn decimal(number: int) -> Seq<char> {
    if number < 0 {
        seq!['-'] + digits((-number) as nat)
    } else {
        digits(number as nat)
    }
}

/// The character that stands for the six bits `value` in base 64.
pub open spec fn sextet_char(value: nat) -> char {
    if value < 26 {
        ((65 + value) as u8) as char
    } else if value < 52 {
        ((71 + value) as u8) as char
    } else if value < 62 {
        ((value - 4) as u8) as char
    } else if value == 62 {
        '+'
    } else {
        '/'
    }
}

/// `data` in base 64, padded to whole groups of four characters.
pub open spec fn base64(data: Seq<u8>) -> Seq<char>
    decreases data.len(),
{
    if data.len() == 0 {
        Seq::<char>::empty()
    } else if data.len() == 1 {
        let a = data[0] as nat;
        seq![sextet_char(a / 4), sextet_char((a % 4) * 16), '=', '=']
    } else if data.len() == 2 {
        let a = data[0] as nat;
        let b = data[1] as nat;
        seq![
            sextet_char(a / 4),
            sextet_char((a % 4) * 16 + b / 16),
            sextet_char((b % 16) * 4),
            '=',
        ]
    } else {
        let a = data[0] as nat;
        let b = data[1] as nat;
        let c = data[2] as nat;
        seq![
            sextet_char(a / 4),
            sextet_char((a % 4) * 16 + b / 16),
            sextet_char((b % 16) * 4 + c / 64),
            sextet_char(c % 64),
        ] + base64(data.skip(3))
    }
}

/// The lines for `value`, each beginning with `indent`.
pub open spec fn xml_value(value: Plist, indent: Seq<char>) -> Seq<char>
    decreases value,
{
    match value {
        Plist::String(text) => indent + "<string>"@ + escaped(text) + "</string>\n"@,
        Plist::Boolean(flag) => indent + if flag {
            "<true/>\n"@
        } else {
            "<false/>\n"@
        },
        Plist::Integer(number) => indent + "<integer>"@ + decimal(number) + "</integer>\n"@,
        Plist::Data(data) => indent + "<data>"@ + base64(data) + "</data>\n"@,
        Plist::Array(members) => indent + "<array>\n"@ + xml_members(members, indent.push('\t'))
            + indent + "</array>\n"@,
        Plist::Dictionary(items) => indent + "<dict>\n"@ + xml_items(items, indent.push('\t'))
            + indent + "</dict>\n"@,
    }
}

/// The lines for `members`, in their order.
pub open spec fn xml_members(members: Seq<Plist>, indent: Seq<char>) -> Seq<char>
    decreases members,
{
    if members.len() == 0 {
        Seq::<char>::empty()
    } else {
        xml_members(members.drop_last(), indent) + xml_value(members.last(), indent)
    }
}

/// The lines for `items`, in their order: for each its key, then its value.
pub open spec fn xml_items(items: Seq<(Seq<char>, Plist)>, indent: Seq<char>) -> Seq<char>
    decreases items,
{
    if items.len() == 0 {
        Seq::<char>::empty()
    } else {
        xml_items(items.drop_last(), indent) + indent + "<key>"@ + escaped(items.last().0)
            + "</key>\n"@ + xml_value(items.last().1, indent)
    }
}

/// The text form of a property list: the XML declaration, the document
/// type, and the value within the `plist` element.
pub open spec fn xml_document(value: Plist) -> Seq<char> {
    "<?xml version=\"1.0\" encoding=\"UTF-8\"?>\n"@
        + "<!DOCTYPE plist PUBLIC \"-//Apple//DTD PLIST 1.0//EN\" \"http://www.apple.com/DTDs/PropertyList-1.0.dtd\">\n"@
        + "<plist version=\"1.0\">\n"@ + xml_value(value, Seq::<char>::empty()) + "</plist>\n"@
}

/// Appends `text` with the reserved characters written as entities.
fn push_escaped(out: &mut String, text: &str)
    ensures
        final(out)@ == old(out)@ + escaped(text@),
{
    let chars = chars_of(text);
    let mut i: usize = 0;
    proof {
        assert(chars@.take(0) == Seq::<char>::empty());
        assert(out@ == old(out)@ + escaped(chars@.take(0)));
    }
    while i < chars.len()
        invariant
            i <= chars.len(),
            chars@ == text@,
            out@ == old(out)@ + escaped(chars@.take(i as int)),
        decreases chars.len() - i,
    {
        let c = chars[i];
        let ghost before = out@;
        proof {
            assert(chars@.take(i + 1).drop_last() == chars@.take(i as int));
            assert(chars@.take(i + 1).last() == c);
        }
        if c == '&' {
            out.append("&amp;");
        } else if c == '<' {
            out.append("&lt;");
        } else if c == '>' {
            out.append("&gt;");
        } else {
            out.push(c);
        }
        proof {
            assert(out@ == old(out)@ + escaped(chars@.take(i + 1)));
        }
        i += 1;
    }
    proof {
        assert(chars@.take(chars.len() as int) == chars@);
    }
}

/// Appends the decimal digits of `number`.
fn push_digits(out: &mut String, number: u64)
    ensures
        final(out)@ == old(out)@ + digits(number as nat),
    decreases number,
{
    if number < 10 {
        out.push((48 + number as u8) as char);
        proof {
            assert(out@ == old(out)@ + digits(number as nat));
        }
    } else {
        push_digits(out, number / 10);
        out.push((48 + (number % 10) as u8) as char);
        proof {
            assert(out@ == old(out)@ + digits(number as nat));
        }
    }
}

/// Appends `number` in decimal.
fn push_decimal(out: &mut String, number: i64)
    ensures
        final(out)@ == old(out)@ + decimal(number as int),
{
    if number < 0 {
        out.push('-');
        let size: u64 = (-(number + 1)) as u64 + 1;
        push_digits(out, size);
        proof {
            assert(out@ == old(out)@ + (seq!['-'] + digits((-number) as nat)));
        }
    } else {
        push_digits(out, number as u64);
    }
}

/// The character that stands for the six bits `value` in base 64.
fn sextet(value: u8) -> (c: char)
    requires
        value < 64,
    ensures
        c == sextet_char(value as nat),
{
    if value < 26 {
        (65 + value) as char
    } else if value < 52 {
        (71 + value) as char
    } else if value < 62 {
        (value - 4) as char
    } else if value == 62 {
        '+'
    } else {
        '/'
    }
}

/// Appends `data` in base 64.
fn push_base64(out: &mut String, data: &Vec<u8>)
    ensures
        final(out)@ == old(out)@ + base64(data@),
{
    let n = data.len();
    let mut i: usize = 0;
    proof {
        assert(data@.skip(0) == data@);
        assert(out@ + base64(data@) == old(out)@ + base64(data@));
    }
    while n - i >= 3
        invariant
            i <= n,
            n == data.len(),
            out@ + base64(data@.skip(i as int)) == old(out)@ + base64(data@),
        decreases n - i,
    {
        let a = data[i];
        let b = data[i + 1];
        let c = data[i + 2];
        let ghost rest = data@.skip(i as int);
        let ghost before = out@;
        proof {
            assert(rest[0] == a && rest[1] == b && rest[2] == c);
            assert(rest.skip(3) == data@.skip(i + 3));
        }
        out.push(sextet(a / 4));
        out.push(sextet((a % 4) * 16 + b / 16));
        out.push(sextet((b % 16) * 4 + c / 64));
        out.push(sextet(c % 64));
        proof {
            let group = seq![
                sextet_char((a as nat) / 4),
                sextet_char(((a as nat) % 4) * 16 + (b as nat) / 16),
                sextet_char(((b as nat) % 16) * 4 + (c as nat) / 64),
                sextet_char((c as nat) % 64),
            ];
            assert(out@ == before + group);
            assert(base64(rest) == group + base64(rest.skip(3)));
            assert(out@ + base64(data@.skip(i + 3)) == before + base64(rest));
        }
        i += 3;
    }
    let ghost rest = data@.skip(i as int);
    let ghost before = out@;
    if n - i == 1 {
        let a = data[i];
        proof {
            assert(rest[0] == a);
        }
        out.push(sextet(a / 4));
        out.push(sextet((a % 4) * 16));
        out.push('=');
        out.push('=');
        proof {
            assert(out@ == before + base64(rest));
        }
    } else if n - i == 2 {
        let a = data[i];
        let b = data[i + 1];
        proof {
            assert(rest[0] == a && rest[1] == b);
        }
        out.push(sextet(a / 4));
        out.push(sextet((a % 4) * 16 + b / 16));
        out.push(sextet((b % 16) * 4));
        out.push('=');
        proof {
            assert(out@ == before + base64(rest));
        }
    } else {
        proof {
            assert(out@ == before + base64(rest));
        }
    }
}

/// Appends the lines for `value`.
fn push_value(out: &mut String, value: &PropertyListValue, indent: &str)
    ensures
        final(out)@ == old(out)@ + xml_value(value@, indent@),
    decreases value,
{
    out.append(indent);
    match value {
        PropertyListValue::String(text) => {
            out.append("<string>");
            push_escaped(out, text.as_str());
            out.append("</string>\n");
            proof {
                assert(out@ == old(out)@ + (indent@ + "<string>"@ + escaped(text@)
                    + "</string>\n"@));
            }
        },
        PropertyListValue::Boolean(flag) => {
            if *flag {
                out.append("<true/>\n");
            } else {
                out.append("<false/>\n");
            }
            proof {
                assert(out@ == old(out)@ + (indent@ + if *flag {
                    "<true/>\n"@
                } else {
                    "<false/>\n"@
                }));
            }
        },
        PropertyListValue::Integer(number) => {
            out.append("<integer>");
            push_decimal(out, *number);
            out.append("</integer>\n");
            proof {
                assert(out@ == old(out)@ + (indent@ + "<integer>"@ + decimal(*number as int)
                    + "</integer>\n"@));
            }
        },
        PropertyListValue::Data(data) => {
            out.append("<data>");
            push_base64(out, data);
            out.append("</data>\n");
            proof {
                assert(out@ == old(out)@ + (indent@ + "<data>"@ + base64(data@) + "</data>\n"@));
            }
        },
        PropertyListValue::Array(members) => {
            out.append("<array>\n");
            let mut deeper = indent.to_owned();
            deeper.push('\t');
            let ghost all = member_views(members@);
            let ghost base = out@;
            let mut i: usize = 0;
            proof {
                lemma_plists_of(members@);
                assert(all.take(0) == Seq::<Plist>::empty());
                assert(out@ == base + xml_members(all.take(0), deeper@));
            }
            while i < members.len()
                invariant
                    i <= members.len(),
                    all == member_views(members@),
                    value == PropertyListValue::Array(*members),
                    out@ == base + xml_members(all.take(i as int), deeper@),
                decreases members.len() - i,
            {
                proof {
                    assert(all.take(i + 1).drop_last() == all.take(i as int));
                    assert(all.take(i + 1).last() == members[i as int]@);
                    vstd::std_specs::vec::axiom_vec_index_decreases(*members, i as int);
                    assert(value->Array_0 == *members);
                    assert(decreases_to!(*value => value->Array_0));
                }
                push_value(out, &members[i], deeper.as_str());
                proof {
                    assert(out@ == base + xml_members(all.take(i + 1), deeper@));
                }
                i += 1;
            }
            proof {
                assert(all.take(members.len() as int) == all);
            }
            out.append(indent);
            out.append("</array>\n");
            proof {
                assert(out@ == old(out)@ + (indent@ + "<array>\n"@ + xml_members(
                    all,
                    indent@.push('\t'),
                ) + indent@ + "</array>\n"@));
            }
        },
        PropertyListValue::Dictionary(items) => {
            out.append("<dict>\n");
            let mut deeper = indent.to_owned();
            deeper.push('\t');
            let ghost all = item_views(items@);
            let ghost base = out@;
            let mut i: usize = 0;
            proof {
                lemma_items_of(items@);
                assert(all.take(0) == Seq::<(Seq<char>, Plist)>::empty());
                assert(out@ == base + xml_items(all.take(0), deeper@));
            }
            while i < items.len()
                invariant
                    i <= items.len(),
                    all == item_views(items@),
                    value == PropertyListValue::Dictionary(*items),
                    out@ == base + xml_items(all.take(i as int), deeper@),
                decreases items.len() - i,
            {
                proof {
                    assert(all.take(i + 1).drop_last() == all.take(i as int));
                    assert(all.take(i + 1).last() == (items[i as int].0@, items[i as int].1@));
                    vstd::std_specs::vec::axiom_vec_index_decreases(*items, i as int);
                    assert(value->Dictionary_0 == *items);
                    assert(decreases_to!(*value => value->Dictionary_0));
                }
                out.append(deeper.as_str());
                out.append("<key>");
                push_escaped(out, items[i].0.as_str());
                out.append("</key>\n");
                push_value(out, &items[i].1, deeper.as_str());
                proof {
                    assert(out@ == base + (xml_items(all.take(i as int), deeper@) + deeper@
                        + "<key>"@ + escaped(items[i as int].0@) + "</key>\n"@ + xml_value(
                        items[i as int].1@,
                        deeper@,
                    )));
                }
                i += 1;
            }
            proof {
                assert(all.take(items.len() as int) == all);
            }
            out.append(indent);
            out.append("</dict>\n");
            proof {
                assert(out@ == old(out)@ + (indent@ + "<dict>\n"@ + xml_items(
                    all,
                    indent@.push('\t'),
                ) + indent@ + "</dict>\n"@));
            }
        },
    }
}

impl PropertyListDocument {
    /// Writes the document as text, in XML.
    pub fn to_xml(&self) -> (text: String)
        ensures
            text@ == xml_document(self@),
    {
        let mut text = String::new();
        text.append("<?xml version=\"1.0\" encoding=\"UTF-8\"?>\n");
        text.append(
            "<!DOCTYPE plist PUBLIC \"-//Apple//DTD PLIST 1.0//EN\" \"http://www.apple.com/DTDs/PropertyList-1.0.dtd\">\n",
        );
        text.append("<plist version=\"1.0\">\n");
        push_value(&mut text, &self.root, "");
        text.append("</plist>\n");
        proof {
            reveal_strlit("");
            assert(""@ == Seq::<char>::empty());
            assert(text@ == xml_document(self@));
        }
        text
    }
}

} // verus!
