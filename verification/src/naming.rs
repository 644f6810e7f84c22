use vstd::prelude::*;
use vstd::string::StringExecFns;
use crate::text::chars_of;

verus! {

/// Whether Unicode classes `c` as a letter or a digit.
pub uninterp spec fn unicode_alphanumeric(c: char) -> bool;

/// An ASCII letter or digit.
pub open spec fn is_ascii_alphanumeric(c: char) -> bool {
    ('0' <= c && c <= '9') || ('a' <= c && c <= 'z') || ('A' <= c && c <= 'Z')
}

/// Decides whether a character is a letter or a digit.
///
/// Stands for `char::is_alphanumeric` of the standard library, which holds
/// of the characters that Unicode classes as alphabetic or numeric. Among
/// the ASCII characters these are the letters and the digits.
pub assume_specification[ char::is_alphanumeric ](c: char) -> (b: bool)
    ensures
        b == unicode_alphanumeric(c),
        (c as u32) < 128 ==> b == is_ascii_alphanumeric(c),
;

/// Whether `c` may stand in a file name token as it is: a letter or a
/// digit. Within ASCII these are the 62 that everyone knows; beyond it
/// Unicode says which they are.
pub open spec fn is_token_char(c: char) -> bool {
    if (c as u32) < 128 {
        is_ascii_alphanumeric(c)
    } else {
        unicode_alphanumeric(c)
    }
}

/// The token that stands for `name` in a file name: letters and digits
/// stay, a space or an underscore becomes an underscore, and everything
/// else is left out.
pub open spec fn sanitized(name: Seq<char>) -> Seq<char>
    decreases name.len(),
{
    if name.len() == 0 {
        Seq::<char>::empty()
    } else {
        let before = sanitized(name.drop_last());
        let c = name.last();
        if is_token_char(c) {
            before.push(c)
        } else if c == ' ' || c == '_' {
            before.push('_')
        } else {
            before
        }
    }
}

/// The name of the package that is made for a device.
pub open spec fn output_name(prefix: Seq<char>, device_name: Seq<char>) -> Seq<char> {
    prefix + "-"@ + sanitized(device_name) + ".ipa"@
}

/// The place of the configuration document within the package.
pub open spec fn configuration_path_of(package: Seq<char>) -> Seq<char> {
    "Payload/"@ + package + ".app/Info.plist"@
}

/// Law: a token holds nothing but letters, digits and underscores, and of
/// ASCII no others than the 62 and the underscore: no separator, no dot
/// and no control character.
pub proof fn lemma_sanitized_is_safe(name: Seq<char>)
    ensures
        forall|i: int|
            0 <= i < sanitized(name).len() ==> is_token_char(#[trigger] sanitized(name)[i])
                || sanitized(name)[i] == '_',
        forall|i: int|
            0 <= i < sanitized(name).len() && ((#[trigger] sanitized(name)[i]) as u32) < 128
                ==> is_plain_token_char(sanitized(name)[i]),
        sanitized(name).len() <= name.len(),
    decreases name.len(),
{
    if name.len() > 0 {
        lemma_sanitized_is_safe(name.drop_last());
    }
}

/// The token of a name that is longer by one character of a token.
proof fn lemma_sanitized_push(name: Seq<char>, c: char)
    requires
        is_token_char(c) || c == '_',
    ensures
        sanitized(name.push(c)) == sanitized(name).push(c),
{
    assert(name.push(c).drop_last() == name);
}

/// Law: a token is its own token.
pub proof fn lemma_sanitized_twice(name: Seq<char>)
    ensures
        sanitized(sanitized(name)) == sanitized(name),
    decreases name.len(),
{
    if name.len() > 0 {
        let before = sanitized(name.drop_last());
        let c = name.last();
        lemma_sanitized_twice(name.drop_last());
        if is_token_char(c) {
            lemma_sanitized_push(before, c);
        } else if c == ' ' || c == '_' {
            lemma_sanitized_push(before, '_');
        }
    }
}

/// An ASCII letter or digit, or an underscore.
pub open spec fn is_plain_token_char(c: char) -> bool {
    ('0' <= c && c <= '9') || ('a' <= c && c <= 'z') || ('A' <= c && c <= 'Z') || c == '_'
}

/// Decides whether `c` may stand in a file name token as it is.
pub fn token_char(c: char) -> (keep: bool)
    ensures
        keep == is_token_char(c),
{
    c.is_alphanumeric()
}

/// Makes the token that stands for a device name in a file name.
pub fn sanitize_device_name(name: &str) -> (token: String)
    ensures
        token@ == sanitized(name@),
{
    let chars = chars_of(name);
    let mut token = String::new();
    let mut i: usize = 0;
    proof {
        assert(chars@.take(0) == Seq::<char>::empty());
    }
    while i < chars.len()
        invariant
            i <= chars.len(),
            chars@ == name@,
            token@ == sanitized(chars@.take(i as int)),
        decreases chars.len() - i,
    {
        let c = chars[i];
        proof {
            assert(chars@.take(i + 1).drop_last() == chars@.take(i as int));
            assert(chars@.take(i + 1).last() == c);
        }
        if token_char(c) {
            token.push(c);
        } else if c == ' ' || c == '_' {
            token.push('_');
        }
        i += 1;
    }
    proof {
        assert(chars@.take(chars.len() as int) == chars@);
    }
    token
}

/// Makes the name of the package for a device: the prefix, a hyphen, the
/// token of the device name, and the extension.
pub fn output_file_name(prefix: &str, device_name: &str) -> (name: String)
    ensures
        name@ == output_name(prefix@, device_name@),
{
    let mut name = prefix.to_owned();
    name.append("-");
    let token = sanitize_device_name(device_name);
    name.append(token.as_str());
    name.append(".ipa");
    name
}

/// Makes the place of the configuration document within the package
/// `package`.
pub fn configuration_path(package: &str) -> (path: String)
    ensures
        path@ == configuration_path_of(package@),
{
    let mut path = String::new();
    path.append("Payload/");
    path.append(package);
    path.append(".app/Info.plist");
    proof {
        assert(path@ == configuration_path_of(package@));
    }
    path
}

} // verus!
