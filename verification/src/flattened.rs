//! Stylesheets that a converter has flattened into generated classes.
use vstd::prelude::*;

use crate::codec;
use crate::edit;
use crate::package;
use crate::reach;
use crate::stylesheet;
use crate::text;
use crate::archive::Part;
use crate::codec::decode_text;
use crate::edit::EpubPackage;
use crate::error::{Error, Fault};
use crate::package::member_text;
use crate::reach::add_name;
use crate::stylesheet::{flat_classes_of, rules_of};
use crate::text::{
    ascii_digit, chars_of, ends_str, find_char, find_str, has_str, lowered, starts_str, string_of,
    trim,
};

verus! {

/// What is known of a book whose styles a converter flattened.
#[derive(Debug, Clone)]
pub struct FlattenedStyles {
    /// The flattened stylesheets, in order of path.
    pub sheets: Vec<String>,
    /// How many classes the converter made up.
    pub generated_classes: u128,
    /// What the book says of the converter.
    pub producer: Option<String>,
}

/// What a `FlattenedStyles` says.
#[verifier::ext_equal]
pub struct Flattened {
    pub sheets: Seq<Seq<char>>,
    pub generated: int,
    pub producer: Option<Seq<char>>,
}

impl View for FlattenedStyles {
    type V = Flattened;

    open spec fn view(&self) -> Flattened {
        Flattened {
            sheets: text::strs(self.sheets@),
            generated: self.generated_classes as int,
            producer: text::opt_str(self.producer),
        }
    }
}

/// A class that the converter made up: `calibre` and digits.
pub open spec fn is_generated(class: Seq<char>) -> bool {
    text::spec_starts(class, "calibre"@) && forall|i: int|
        7 <= i < class.len() ==> text::is_ascii_digit(#[trigger] class[i])
}

/// A class that the converter made up.
pub fn generated(class: &[char]) -> (r: bool)
    ensures
        r == is_generated(class@),
{
    proof {
        reveal_strlit("calibre");
    }
    if !starts_str(class, "calibre") {
        return false;
    }
    let n = class.len();
    let mut i: usize = 7;
    while i < n
        invariant
            7 <= i <= n,
            n == class@.len(),
            text::spec_starts(class@, "calibre"@),
            forall|k: int| 7 <= k < i ==> text::is_ascii_digit(#[trigger] class@[k]),
        decreases n - i,
    {
        if !ascii_digit(class[i]) {
            return false;
        }
        i += 1;
    }
    true
}

/// How many of the first `n` classes the converter made up.
pub open spec fn generated_to(v: Seq<Seq<char>>, n: int) -> int
    decreases n,
{
    if n <= 0 {
        0
    } else {
        generated_to(v, n - 1) + if is_generated(v[n - 1]) {
            1int
        } else {
            0
        }
    }
}

/// How many classes of a stylesheet the converter made up.
pub open spec fn generated_in(css: Seq<char>) -> int {
    let v = stylesheet::sheet_rules(css);
    let c = stylesheet::flat_classes(v, v.len() as int);
    generated_to(c, c.len() as int)
}

fn generated_count(css: &str) -> (r: usize)
    ensures
        r == generated_in(css@),
{
    let v = rules_of(css);
    assert(stylesheet::rules(v@).len() == v@.len());
    let c = flat_classes_of(&v);
    let ghost all = text::strs(c@);
    let n = c.len();
    assert(all.len() == n);
    let mut count: usize = 0;
    let mut i: usize = 0;
    while i < n
        invariant
            i <= n,
            n == c@.len(),
            all == text::strs(c@),
            count <= i,
            count == generated_to(all, i as int),
        decreases n - i,
    {
        assert(all[i as int] == c@[i as int]@);
        if generated(&chars_of(&c[i])) {
            count += 1;
        }
        i += 1;
    }
    count
}

/// The name is that of a stylesheet.
pub open spec fn is_sheet(name: Seq<char>) -> bool {
    text::spec_ends(text::spec_lower(name), ".css"@)
}

/// How many classes the converter made up in the `i`-th member.
pub open spec fn generated_at(p: Seq<Part>, i: int) -> int {
    if is_sheet(p[i].name) {
        match package::spec_text(p, p[i].name) {
            Some(t) => generated_in(t),
            None => 0,
        }
    } else {
        0
    }
}

/// The flattened stylesheets among the first `n` members, in order of path.
pub open spec fn flat_sheets_to(p: Seq<Part>, n: int) -> Seq<Seq<char>>
    decreases n,
{
    if n <= 0 {
        Seq::empty()
    } else if generated_at(p, n - 1) > 0 {
        reach::with_name(flat_sheets_to(p, n - 1), p[n - 1].name, 0)
    } else {
        flat_sheets_to(p, n - 1)
    }
}

/// How many classes the converter made up in the first `n` members.
pub open spec fn generated_sum(p: Seq<Part>, n: int) -> int
    decreases n,
{
    if n <= 0 {
        0
    } else {
        generated_sum(p, n - 1) + generated_at(p, n - 1)
    }
}

// ---------------------------------------------------------------- the converter

/// The converter that the text from `i` on names as the book's producer.
pub open spec fn producer_from(t: Seq<char>, i: int) -> Option<Seq<char>>
    decreases t.len() - i,
{
    match text::spec_find(t, "<dc:contributor"@, i) {
        Some(start) if 0 <= i <= start => match text::spec_find_char(t, '>', start) {
            Some(open) if start <= open => match text::spec_find(t, "</dc:contributor>"@, open) {
                Some(close) if open < close < t.len() => {
                    let body = text::spec_trim(t.subrange(open + 1, close));
                    if text::spec_contains(t.subrange(start, open + 1), "bkp"@) && text::spec_contains(
                        text::spec_lower(body),
                        "calibre"@,
                    ) {
                        Some(body)
                    } else {
                        producer_from(t, close + 1)
                    }
                },
                _ => None,
            },
            _ => None,
        },
        _ => None,
    }
}

fn producer_in(t: &[char]) -> (r: Option<String>)
    ensures
        text::opt_str(r) == producer_from(t@, 0),
{
    let n = t.len();
    proof {
        reveal_strlit("<dc:contributor");
        reveal_strlit("</dc:contributor>");
    }
    let mut i: usize = 0;
    loop
        invariant
            i <= n,
            n == t@.len(),
            "<dc:contributor"@.len() == 15,
            "</dc:contributor>"@.len() == 17,
            "</dc:contributor>"@[0] == '<',
            producer_from(t@, i as int) == producer_from(t@, 0),
        decreases n - i,
    {
        proof {
            text::lemma_find(t@, "<dc:contributor"@, i as int);
        }
        let start = match find_str(t, "<dc:contributor", i) {
            Some(s) => s,
            None => {
                return None;
            },
        };
        proof {
            text::lemma_find_char(t@, '>', start as int);
        }
        let open = match find_char(t, '>', start) {
            Some(o) => o,
            None => {
                return None;
            },
        };
        proof {
            text::lemma_find(t@, "</dc:contributor>"@, open as int);
        }
        let close = match find_str(t, "</dc:contributor>", open) {
            Some(c) => c,
            None => {
                return None;
            },
        };
        assert(t@.subrange(close as int, close + 17)[0] == '<');
        assert(close != open);
        let body = trim(&t[open + 1..close]);
        if has_str(&t[start..open + 1], "bkp") && has_str(&lowered(body), "calibre") {
            return Some(string_of(body));
        }
        i = close + 1;
    }
}

/// The converter that a package names as its producer.
pub open spec fn producer_of(p: Seq<Part>) -> Option<Seq<char>> {
    match edit::spec_opf_bytes(p) {
        Ok(b) => producer_from(codec::text_in(b), 0),
        Err(_) => None,
    }
}

fn producer(pkg: &EpubPackage) -> (r: Option<String>)
    ensures
        text::opt_str(r) == producer_of(pkg@),
{
    match pkg.opf_bytes() {
        Ok(b) => producer_in(&chars_of(&decode_text(b))),
        Err(_) => None,
    }
}

// ---------------------------------------------------------------- detection

/// What a package shows of a flattening converter: nothing where no stylesheet has a class that
/// one made up.
pub open spec fn detected(p: Seq<Part>) -> Option<Flattened> {
    let n = p.len() as int;
    if flat_sheets_to(p, n).len() == 0 {
        None
    } else {
        Some(
            Flattened {
                sheets: flat_sheets_to(p, n),
                generated: generated_sum(p, n),
                producer: producer_of(p),
            },
        )
    }
}

/// What a finding that there may be says.
pub open spec fn flattened_said(r: Option<FlattenedStyles>) -> Option<Flattened> {
    match r {
        Some(f) => Some(f@),
        None => None,
    }
}

/// What a package shows of a flattening converter.
pub fn detect(pkg: &EpubPackage) -> (r: Option<FlattenedStyles>)
    ensures
        flattened_said(r) == detected(pkg@),
{
    let ghost p = pkg@;
    let n = pkg.entries.len();
    assert(p.len() == n);
    let mut sheets: Vec<String> = Vec::new();
    assert(text::strs(sheets@) =~= Seq::empty());
    let mut count: u128 = 0;
    let mut i: usize = 0;
    while i < n
        invariant
            i <= n,
            n == pkg.entries@.len(),
            p == pkg@,
            p.len() == n,
            count <= i * (usize::MAX as int),
            count == generated_sum(p, i as int),
            text::strs(sheets@) == flat_sheets_to(p, i as int),
        decreases n - i,
    {
        assert(p[i as int] == pkg.entries@[i as int]@);
        let name = &pkg.entries[i].name;
        let mut made: usize = 0;
        if ends_str(&lowered(&chars_of(name)), ".css") {
            if let Some(t) = member_text(pkg, name) {
                made = generated_count(&t);
            }
        }
        assert(made == generated_at(p, i as int));
        assert(i < n);
        proof {
            text::lemma_count(i as int, count as int, made as int);
        }
        if made > 0 {
            add_name(&mut sheets, name);
        }
        count = count + made as u128;
        i += 1;
    }
    assert(text::strs(sheets@).len() == sheets@.len());
    if sheets.len() == 0 {
        return None;
    }
    Some(FlattenedStyles { sheets, generated_classes: count, producer: producer(pkg) })
}

/// What an EPUB shows of a flattening converter.
pub open spec fn spec_flattened_styles(bytes: Seq<u8>) -> Result<Option<Flattened>, Fault> {
    match edit::spec_parse(bytes) {
        None => Err(Fault::Archive),
        Some(p) => Ok(detected(p)),
    }
}

pub open spec fn flattened_result(r: Result<Option<FlattenedStyles>, Error>) -> Result<
    Option<Flattened>,
    Fault,
> {
    match r {
        Ok(f) => Ok(flattened_said(f)),
        Err(e) => Err(e@),
    }
}

/// Whether a converter flattened the styles of an EPUB, and what shows it.
pub fn flattened_styles(epub_bytes: &[u8]) -> (r: Result<Option<FlattenedStyles>, Error>)
    ensures
        flattened_result(r) == spec_flattened_styles(epub_bytes@),
{
    match EpubPackage::parse(epub_bytes) {
        Ok(p) => Ok(detect(&p)),
        Err(e) => Err(e),
    }
}

} // verus!
