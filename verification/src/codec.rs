//! Bytes and the text they stand for.
use vstd::prelude::*;

use crate::markup;
use crate::text;
use crate::markup::attr_value;
use crate::text::{chars_of, find_str, has_char, starts_str, string_of};

verus! {

/// What `encoding_rs` reads from `bytes` under the encoding that `label` names:
/// the text, and whether any of it was malformed; nothing for an unknown label.
pub uninterp spec fn decoded(label: Seq<char>, bytes: Seq<u8>) -> Option<(Seq<char>, bool)>;

/// The text of a reading.
pub open spec fn read_text(r: Option<(Seq<char>, bool)>) -> Seq<char> {
    match r {
        Some((s, _)) => s,
        None => Seq::empty(),
    }
}

/// What a reading says.
pub open spec fn reading(r: Option<(String, bool)>) -> Option<(Seq<char>, bool)> {
    match r {
        Some((s, bad)) => Some((s@, bad)),
        None => None,
    }
}

/// The bytes start with the mark that announces UTF-8.
pub open spec fn has_bom(bytes: Seq<u8>) -> bool {
    bytes.len() >= 3 && bytes[0] == 0xef && bytes[1] == 0xbb && bytes[2] == 0xbf
}

/// What is read from `bytes` under `label`: well-formed UTF-8 that is labelled so,
/// and carries no mark, as the characters it encodes; all else as `decoded` has
/// it.
pub open spec fn decoding(label: Seq<char>, bytes: Seq<u8>) -> Option<(Seq<char>, bool)> {
    if text::spec_lower(label) == "utf-8"@ && vstd::utf8::valid_utf8(bytes) && !has_bom(bytes) {
        Some((vstd::utf8::decode_utf8(bytes), false))
    } else {
        decoded(label, bytes)
    }
}

/// Calls `encoding_rs::Encoding::for_label` and, on the encoding it names,
/// `Encoding::decode`, which replaces malformed input and says whether it did.
/// Claimed: the result depends on the label and the bytes alone, the two labels
/// `utf-8` and `shift_jis` are known, and well-formed UTF-8 without a byte order
/// mark, labelled so in large or small letters, is read as the characters it
/// encodes.
#[verifier::external_body]
pub(crate) fn decode_labelled(label: &str, bytes: &[u8]) -> (r: Option<(String, bool)>)
    ensures
        reading(r) == decoded(label@, bytes@),
        label@ == "utf-8"@ || label@ == "shift_jis"@ ==> r is Some,
        text::spec_lower(label@) == "utf-8"@ && vstd::utf8::valid_utf8(bytes@) && !has_bom(bytes@)
            ==> reading(r) == Some((vstd::utf8::decode_utf8(bytes@), false)),
{
    let encoding = encoding_rs::Encoding::for_label(label.as_bytes())?;
    let (text, _, bad) = encoding.decode(bytes);
    Some((text.into_owned(), bad))
}

/// Calls `std::str::from_utf8`, and puts its error into words. Claimed: it
/// succeeds on well-formed UTF-8 alone, and then gives the characters that the
/// bytes encode. Nothing is claimed of the words.
#[verifier::external_body]
pub(crate) fn utf8_text(bytes: &[u8]) -> (r: Result<String, String>)
    ensures
        r is Ok == vstd::utf8::valid_utf8(bytes@),
        r matches Ok(s) ==> vstd::utf8::encode_utf8(s@) == bytes@,
{
    match std::str::from_utf8(bytes) {
        Ok(s) => Ok(s.to_string()),
        Err(e) => Err(format!("{e}")),
    }
}

/// The bytes of `s` in UTF-8.
pub fn bytes_of(s: &str) -> (r: Vec<u8>)
    ensures
        r@ == vstd::utf8::encode_utf8(s@),
{
    slice_copy(s.as_bytes())
}

/// A copy of `s`.
pub fn slice_copy(s: &[u8]) -> (r: Vec<u8>)
    ensures
        r@ == s@,
{
    let mut out: Vec<u8> = Vec::new();
    let mut i: usize = 0;
    while i < s.len()
        invariant
            i <= s@.len(),
            out@ == s@.take(i as int),
        decreases s@.len() - i,
    {
        out.push(s[i]);
        i = i + 1;
    }
    out
}

/// Each byte as the character of the same number.
pub open spec fn latin1(bytes: Seq<u8>) -> Seq<char> {
    bytes.map_values(|b: u8| b as char)
}

/// The bytes start with the mark that announces UTF-16: whether the large half of
/// each unit comes first.
pub open spec fn wide(bytes: Seq<u8>) -> Option<bool> {
    if bytes.len() >= 2 && bytes[0] == 0xfe && bytes[1] == 0xff {
        Some(true)
    } else if bytes.len() >= 2 && bytes[0] == 0xff && bytes[1] == 0xfe {
        Some(false)
    } else {
        None
    }
}

/// The two bytes that a unit of UTF-16 has for an ASCII character.
pub open spec fn unit(c: char, large_first: bool) -> Seq<u8> {
    if large_first {
        seq![0u8, c as u8]
    } else {
        seq![c as u8, 0u8]
    }
}

/// The characters that stand in the bytes, a unit each: one byte, or the two of
/// UTF-16. A unit of UTF-16 outside of ASCII is read as a mark for it.
pub open spec fn unit_text(bytes: Seq<u8>) -> Seq<char> {
    match wide(bytes) {
        None => latin1(bytes),
        Some(large_first) => Seq::new(
            bytes.len() / 2,
            |i: int|
                {
                    let (hi, lo) = if large_first {
                        (bytes[2 * i], bytes[2 * i + 1])
                    } else {
                        (bytes[2 * i + 1], bytes[2 * i])
                    };
                    if hi == 0 && lo < 0x80 {
                        lo as char
                    } else {
                        '\u{fffd}'
                    }
                },
        ),
    }
}

/// Where the unit `i` starts in the bytes.
pub open spec fn unit_start(bytes: Seq<u8>, i: int) -> int {
    if wide(bytes) is Some {
        2 * i
    } else {
        i
    }
}

/// ASCII text in units: as bytes, or in UTF-16.
pub open spec fn in_units(s: Seq<char>, w: Option<bool>) -> Seq<u8>
    decreases s.len(),
{
    if s.len() == 0 {
        Seq::empty()
    } else {
        in_units(s.drop_last(), w) + match w {
            None => seq![s.last() as u8],
            Some(large_first) => unit(s.last(), large_first),
        }
    }
}

pub fn wide_of(bytes: &[u8]) -> (r: Option<bool>)
    ensures
        r == wide(bytes@),
{
    if bytes.len() >= 2 && bytes[0] == 0xfe && bytes[1] == 0xff {
        Some(true)
    } else if bytes.len() >= 2 && bytes[0] == 0xff && bytes[1] == 0xfe {
        Some(false)
    } else {
        None
    }
}

/// The characters that stand in the bytes, a unit each.
pub fn unit_text_of(bytes: &[u8]) -> (r: Vec<char>)
    ensures
        r@ == unit_text(bytes@),
{
    let large_first = match wide_of(bytes) {
        None => {
            return latin1_of(bytes);
        },
        Some(b) => b,
    };
    let len = bytes.len();
    let n = len / 2;
    let mut out: Vec<char> = Vec::new();
    let mut i: usize = 0;
    while i < n
        invariant
            len == bytes@.len(),
            n == len / 2,
            i <= n,
            wide(bytes@) == Some(large_first),
            out@ == unit_text(bytes@).take(i as int),
        decreases n - i,
    {
        assert(2 * i + 1 < len);
        let k = i + i;
        let (hi, lo) = if large_first {
            (bytes[k], bytes[k + 1])
        } else {
            (bytes[k + 1], bytes[k])
        };
        let c = if hi == 0 && lo < 0x80 {
            lo as char
        } else {
            '\u{fffd}'
        };
        assert(unit_text(bytes@)[i as int] == c);
        out.push(c);
        assert(unit_text(bytes@).take(i + 1) =~= unit_text(bytes@).take(i as int).push(c));
        i = i + 1;
    }
    assert(unit_text(bytes@).take(n as int) =~= unit_text(bytes@));
    out
}

/// ASCII text in units.
pub fn in_units_of(s: &[char], w: Option<bool>) -> (r: Vec<u8>)
    ensures
        r@ == in_units(s@, w),
{
    let mut out: Vec<u8> = Vec::new();
    let mut i: usize = 0;
    while i < s.len()
        invariant
            i <= s@.len(),
            out@ == in_units(s@.take(i as int), w),
        decreases s@.len() - i,
    {
        let ghost before = out@;
        let c = #[verifier::truncate] (s[i] as u8);
        match w {
            None => {
                out.push(c);
                assert(out@ =~= before + seq![c]);
            },
            Some(true) => {
                out.push(0);
                out.push(c);
                assert(out@ =~= before + seq![0u8, c]);
            },
            Some(false) => {
                out.push(c);
                out.push(0);
                assert(out@ =~= before + seq![c, 0u8]);
            },
        }
        assert(s@.take(i + 1).drop_last() =~= s@.take(i as int));
        i = i + 1;
    }
    assert(s@.take(s@.len() as int) =~= s@);
    out
}

/// Each byte as the character of the same number.
pub fn latin1_of(bytes: &[u8]) -> (r: Vec<char>)
    ensures
        r@ == latin1(bytes@),
{
    let mut out: Vec<char> = Vec::new();
    let mut i: usize = 0;
    while i < bytes.len()
        invariant
            i <= bytes@.len(),
            out@ == latin1(bytes@.take(i as int)),
        decreases bytes@.len() - i,
    {
        out.push(bytes[i] as char);
        i = i + 1;
    }
    assert(bytes@.take(bytes@.len() as int) == bytes@);
    out
}

/// The encoding that an XML declaration at the start of `bytes` names.
pub open spec fn declared_encoding(bytes: Seq<u8>) -> Option<Seq<char>> {
    let t = latin1(bytes);
    if text::spec_starts(t, "<?xml"@) {
        match text::spec_find(t, "?>"@, 0) {
            Some(k) => markup::spec_attr_value(t.subrange(0, k), "encoding"@),
            None => None,
        }
    } else {
        None
    }
}

/// The encoding that an XML declaration at the start of `bytes` names.
pub fn extract_xml_encoding(bytes: &[u8]) -> (r: Option<String>)
    ensures
        text::opt_str(r) == declared_encoding(bytes@),
{
    let t = latin1_of(bytes);
    if !starts_str(&t, "<?xml") {
        return None;
    }
    match find_str(&t, "?>", 0) {
        Some(k) => attr_value(&string_of(&t[0..k]), "encoding"),
        None => None,
    }
}

/// The text of a member: read under the encoding that it declares, and as UTF-8
/// where it declares none or an unknown one.
pub open spec fn text_in(bytes: Seq<u8>) -> Seq<char> {
    let as_utf8 = read_text(decoding("utf-8"@, bytes));
    match declared_encoding(bytes) {
        Some(label) => match decoding(label, bytes) {
            Some((s, _)) => s,
            None => as_utf8,
        },
        None => as_utf8,
    }
}

/// The bytes are read as UTF-8: they carry no mark, and declare no other encoding.
pub open spec fn declares_utf8(bytes: Seq<u8>) -> bool {
    !has_bom(bytes) && match declared_encoding(bytes) {
        Some(label) => text::spec_lower(label) == "utf-8"@,
        None => true,
    }
}

/// A text that is written is read back, where nothing in it asks for another
/// encoding.
pub proof fn written_text_is_read_back(s: Seq<char>)
    requires
        declares_utf8(vstd::utf8::encode_utf8(s)),
    ensures
        text_in(vstd::utf8::encode_utf8(s)) == s,
{
    vstd::utf8::encode_utf8_valid_utf8(s);
    vstd::utf8::encode_utf8_decode_utf8(s);
    reveal_strlit("utf-8");
    assert(text::spec_lower("utf-8"@) =~= "utf-8"@);
}

/// The text of a member.
pub fn decode_text(bytes: &[u8]) -> (r: String)
    ensures
        r@ == text_in(bytes@),
{
    if let Some(label) = extract_xml_encoding(bytes) {
        if let Some((s, _)) = decode_labelled(&label, bytes) {
            return s;
        }
    }
    match decode_labelled("utf-8", bytes) {
        Some((s, _)) => s,
        None => String::new(),
    }
}

/// The number that a hexadecimal digit stands for.
pub open spec fn hex(c: char) -> Option<int> {
    if '0' <= c <= '9' {
        Some(c as int - '0' as int)
    } else if 'a' <= c <= 'f' {
        Some(c as int - 'a' as int + 10)
    } else if 'A' <= c <= 'F' {
        Some(c as int - 'A' as int + 10)
    } else {
        None
    }
}

fn hex_of(c: char) -> (r: Option<u8>)
    ensures
        match r {
            Some(d) => hex(c) == Some(d as int) && d < 16,
            None => hex(c) is None,
        },
{
    if '0' <= c && c <= '9' {
        Some(c as u8 - 48)
    } else if 'a' <= c && c <= 'f' {
        Some(c as u8 - 97 + 10)
    } else if 'A' <= c && c <= 'F' {
        Some(c as u8 - 65 + 10)
    } else {
        None
    }
}

/// The bytes that `s` from `i` on stands for: `%` with two hexadecimal digits
/// is the byte they name, every other character its UTF-8 bytes.
pub open spec fn percent_bytes(s: Seq<char>, i: int) -> Seq<u8>
    decreases s.len() - i,
{
    if i < 0 || i >= s.len() {
        Seq::empty()
    } else if s[i] == '%' && i + 2 < s.len() && hex(s[i + 1]) is Some && hex(s[i + 2]) is Some {
        seq![((hex(s[i + 1])->0) * 16 + hex(s[i + 2])->0) as u8] + percent_bytes(s, i + 3)
    } else {
        vstd::utf8::encode_utf8(seq![s[i]]) + percent_bytes(s, i + 1)
    }
}

/// `s` with its percent-encoded bytes read.
pub open spec fn spec_percent_decode(s: Seq<char>) -> Seq<char> {
    if !s.contains('%') {
        s
    } else {
        read_text(decoding("utf-8"@, percent_bytes(s, 0)))
    }
}

/// `s` with its percent-encoded bytes read.
pub fn percent_decode(s: &str) -> (r: String)
    ensures
        r@ == spec_percent_decode(s@),
{
    let t = chars_of(s);
    if !has_char(&t, '%') {
        return string_of(&t);
    }
    let n = t.len();
    let mut bytes: Vec<u8> = Vec::new();
    let mut i: usize = 0;
    while i < n
        invariant
            n == t@.len(),
            i <= n,
            bytes@ + percent_bytes(t@, i as int) == percent_bytes(t@, 0),
        decreases n - i,
    {
        let ghost before = bytes@;
        if t[i] == '%' && n - i > 2 {
            if let (Some(a), Some(b)) = (hex_of(t[i + 1]), hex_of(t[i + 2])) {
                let x: u8 = a * 16 + b;
                bytes.push(x);
                assert(before + (seq![x] + percent_bytes(t@, i + 3)) =~= bytes@ + percent_bytes(
                    t@,
                    i + 3,
                ));
                i = i + 3;
                continue;
            }
        }
        let mut one: Vec<char> = Vec::new();
        one.push(t[i]);
        assert(one@ =~= seq![t@[i as int]]);
        let enc = bytes_of(&string_of(&one));
        append_bytes(&mut bytes, &enc);
        assert(before + (enc@ + percent_bytes(t@, i + 1)) =~= bytes@ + percent_bytes(t@, i + 1));
        i = i + 1;
    }
    assert(bytes@ =~= percent_bytes(t@, 0));
    match decode_labelled("utf-8", &bytes) {
        Some((r, _)) => r,
        None => String::new(),
    }
}

/// Appends `s` to `out`.
pub fn append_bytes(out: &mut Vec<u8>, s: &[u8])
    ensures
        final(out)@ == old(out)@ + s@,
{
    let mut i: usize = 0;
    let ghost before = out@;
    while i < s.len()
        invariant
            i <= s@.len(),
            out@ == before + s@.take(i as int),
        decreases s@.len() - i,
    {
        out.push(s[i]);
        i = i + 1;
    }
    assert(s@.take(s@.len() as int) == s@);
}

} // verus!
