//! In-place EPUB (OCF zip) editing. `EpubPackage` holds every member in memory,
//! and `Changes` says what an operation on it did.
use vstd::prelude::*;

use crate::archive;
use crate::codec;
use crate::error;
use crate::opf;
use crate::text;
use crate::zip_repair;
use crate::archive::{Part, count, finish, message, open, put_file, read_at, read_named, writer};
use crate::codec::{bytes_of, percent_decode, slice_copy};
use crate::error::{Error, ErrorKind, Fault, refuse, refuse_named};
use crate::opf::parse_container_xml;
use crate::text::{add_str, chars_of, ends_str, str_is, string_of, strs_have};
use crate::zip_repair::neutralize_spurious_zip64;

verus! {

/// One member of an EPUB, decompressed, with the way it was stored: an untouched
/// member is written back the same way.
pub struct Entry {
    pub name: String,
    pub data: Vec<u8>,
    pub stored: bool,
}

impl View for Entry {
    type V = Part;

    open spec fn view(&self) -> Part {
        Part { name: self.name@, data: self.data@, stored: self.stored }
    }
}

/// An EPUB opened for editing: every member in memory, in the order of the
/// archive.
pub struct EpubPackage {
    pub entries: Vec<Entry>,
}

impl View for EpubPackage {
    type V = Seq<Part>;

    open spec fn view(&self) -> Seq<Part> {
        self.entries@.map_values(|e: Entry| e@)
    }
}

/// The position of the first member from `i` on with the name.
pub open spec fn member_at(p: Seq<Part>, name: Seq<char>, i: int) -> Option<int>
    decreases p.len() - i,
{
    if i < 0 || i >= p.len() {
        None
    } else if p[i].name == name {
        Some(i)
    } else {
        member_at(p, name, i + 1)
    }
}

/// The content of the member with the name.
pub open spec fn spec_get(p: Seq<Part>, name: Seq<char>) -> Option<Seq<u8>> {
    match member_at(p, name, 0) {
        Some(i) => Some(p[i].data),
        None => None,
    }
}

/// The package once the member with the name has the content `data`.
pub open spec fn spec_replace(p: Seq<Part>, name: Seq<char>, data: Seq<u8>) -> Seq<Part> {
    match member_at(p, name, 0) {
        Some(i) => p.update(i, Part { data, ..p[i] }),
        None => p,
    }
}

/// The package once it has a member with the name and the content `data`: a new
/// one stands at the end, compressed.
pub open spec fn spec_set(p: Seq<Part>, name: Seq<char>, data: Seq<u8>) -> Seq<Part> {
    match member_at(p, name, 0) {
        Some(i) => p.update(i, Part { data, ..p[i] }),
        None => p.push(Part { name, data, stored: false }),
    }
}

/// The first `n` members but those with the name.
pub open spec fn without(p: Seq<Part>, name: Seq<char>, n: int) -> Seq<Part>
    decreases n,
{
    if n <= 0 {
        Seq::empty()
    } else if p[n - 1].name == name {
        without(p, name, n - 1)
    } else {
        without(p, name, n - 1).push(p[n - 1])
    }
}

/// The package without its members with the name.
pub open spec fn spec_remove(p: Seq<Part>, name: Seq<char>) -> Seq<Part> {
    without(p, name, p.len() as int)
}

/// The names of the members, in order.
pub open spec fn spec_names(p: Seq<Part>) -> Seq<Seq<char>> {
    p.map_values(|m: Part| m.name)
}

/// The first `n` members, those that `names` names.
pub open spec fn kept_to(p: Seq<Part>, names: Seq<Seq<char>>, n: int) -> Seq<Part>
    decreases n,
{
    if n <= 0 {
        Seq::empty()
    } else if names.contains(p[n - 1].name) {
        kept_to(p, names, n - 1).push(p[n - 1])
    } else {
        kept_to(p, names, n - 1)
    }
}

/// The path of the package document: the one that `META-INF/container.xml`
/// names, percent-encoded bytes read.
pub open spec fn spec_opf_path(p: Seq<Part>) -> Result<Seq<char>, Fault> {
    match spec_get(p, "META-INF/container.xml"@) {
        None => Err(Fault::Said(ErrorKind::NotFound, "EPUB has no META-INF/container.xml"@)),
        Some(bytes) => match opf::spec_parse_container(bytes) {
            Ok(path) => Ok(codec::spec_percent_decode(path)),
            Err(f) => Err(f),
        },
    }
}

/// The bytes of the package document.
pub open spec fn spec_opf_bytes(p: Seq<Part>) -> Result<Seq<u8>, Fault> {
    match spec_opf_path(p) {
        Err(f) => Err(f),
        Ok(path) => match spec_get(p, path) {
            Some(bytes) => Ok(bytes),
            None => Err(Fault::Said(ErrorKind::NotFound, "OPF not found at "@ + path + ""@)),
        },
    }
}

/// The first `n` entries of an archive as members; entries of directories are
/// implied by the paths of the others and left out. Nothing where one of them
/// cannot be read.
pub open spec fn members_to(v: Seq<Option<Part>>, n: int) -> Option<Seq<Part>>
    decreases n,
{
    if n <= 0 {
        Some(Seq::empty())
    } else {
        match (members_to(v, n - 1), v[n - 1]) {
            (Some(before), Some(m)) => if text::spec_ends(m.name, "/"@) {
                Some(before)
            } else {
                Some(before.push(m))
            },
            _ => None,
        }
    }
}

/// The members of the archive that `bytes` hold.
pub open spec fn read_whole(bytes: Seq<u8>) -> Option<Seq<Part>> {
    match archive::entries_of(bytes) {
        Some(v) => members_to(v, v.len() as int),
        None => None,
    }
}

/// The members of an EPUB. Where the archive cannot be read as it is, it is read
/// with its spurious ZIP64 fields neutralized.
pub open spec fn spec_parse(bytes: Seq<u8>) -> Option<Seq<Part>> {
    match read_whole(bytes) {
        Some(p) => Some(p),
        None => match zip_repair::spec_neutralize(bytes) {
            Some(repaired) => read_whole(repaired),
            None => None,
        },
    }
}

/// The `mimetype` member's own content.
pub open spec fn mimetype_body() -> Seq<u8> {
    vstd::utf8::encode_utf8("application/epub+zip"@)
}

/// The members as an EPUB's archive holds them: `mimetype` first and stored,
/// then the others in order.
pub open spec fn packed(p: Seq<Part>) -> Seq<Part> {
    let body = match spec_get(p, "mimetype"@) {
        Some(data) => data,
        None => mimetype_body(),
    };
    seq![Part { name: "mimetype"@, data: body, stored: true }] + spec_remove(p, "mimetype"@)
}

/// A member's name is longer than an archive can say.
pub open spec fn overlong(p: Seq<Part>) -> bool {
    exists|i: int| 0 <= i < p.len() && vstd::utf8::encode_utf8((#[trigger] p[i]).name).len() > 0xffff
}

/// The members have different names.
pub open spec fn names_differ(p: Seq<Part>) -> bool {
    forall|i: int, j: int| 0 <= i < j < p.len() ==> (#[trigger] p[i]).name != (#[trigger] p[j]).name
}

/// An archive can hold the members: it can say each name, no two members share
/// one, and together they take no more than 2 GiB.
pub open spec fn fits(p: Seq<Part>) -> bool {
    &&& !overlong(p)
    &&& names_differ(packed(p))
    &&& archive::room(packed(p)) <= 0x7fff_ffff
}

pub proof fn lemma_member_at(p: Seq<Part>, name: Seq<char>, i: int)
    requires
        0 <= i,
    ensures
        member_at(p, name, i) matches Some(k) ==> i <= k < p.len() && p[k].name == name
            && forall|j: int| i <= j < k ==> (#[trigger] p[j]).name != name,
        member_at(p, name, i) is None ==> forall|j: int|
            i <= j < p.len() ==> (#[trigger] p[j]).name != name,
    decreases p.len() - i,
{
    if i < p.len() && p[i].name != name {
        lemma_member_at(p, name, i + 1);
    }
}

fn archive_error(e: zip::result::ZipError) -> (r: Error)
    ensures
        r@ == Fault::Archive,
{
    Error::Archive(message(&e))
}

fn same_bytes(s: &[u8]) -> (r: Vec<u8>)
    ensures
        r@ == s@,
{
    slice_copy(s)
}

impl EpubPackage {
    fn index(&self, name: &str) -> (r: Option<usize>)
        ensures
            text::pos(r) == member_at(self@, name@, 0),
            r matches Some(i) ==> i < self.entries@.len(),
    {
        let mut i: usize = 0;
        while i < self.entries.len()
            invariant
                i <= self.entries@.len(),
                member_at(self@, name@, 0) == member_at(self@, name@, i as int),
            decreases self.entries@.len() - i,
        {
            assert(self@[i as int] == self.entries@[i as int]@);
            if str_is(&self.entries[i].name, name) {
                return Some(i);
            }
            i = i + 1;
        }
        None
    }

    /// Reads an EPUB's archive, every member into memory.
    pub fn parse(bytes: &[u8]) -> (r: Result<EpubPackage, Error>)
        ensures
            match r {
                Ok(p) => spec_parse(bytes@) == Some(p@) && names_differ(p@),
                Err(e) => spec_parse(bytes@) is None && e@ == Fault::Archive,
            },
    {
        match Self::parse_inner(bytes) {
            Ok(p) => Ok(p),
            Err(first) => match neutralize_spurious_zip64(bytes) {
                Some(repaired) => Self::parse_inner(&repaired),
                None => Err(first),
            },
        }
    }

    fn parse_inner(bytes: &[u8]) -> (r: Result<EpubPackage, Error>)
        ensures
            match r {
                Ok(p) => read_whole(bytes@) == Some(p@) && names_differ(p@),
                Err(e) => read_whole(bytes@) is None && e@ == Fault::Archive,
            },
    {
        let mut a = match open(bytes) {
            Ok(a) => a,
            Err(e) => {
                return Err(archive_error(e));
            },
        };
        let n = count(&a);
        let ghost v = archive::held(a);
        let mut p = EpubPackage { entries: Vec::new() };
        assert(p@ =~= Seq::<Part>::empty());
        let mut i: usize = 0;
        while i < n
            invariant
                i <= n == v.len(),
                v == archive::held(a),
                archive::entries_of(bytes@) == Some(v),
                archive::names_differ(v),
                members_to(v, i as int) == Some(p@),
                names_differ(p@),
                forall|k: int, j: int|
                    0 <= k < p@.len() && i <= j < n && v[j] is Some ==> (#[trigger] p@[k]).name != (
                    #[trigger] v[j])->0.name,
            decreases n - i,
        {
            match read_at(&mut a, i) {
                Err(e) => {
                    proof {
                        lemma_members_none(v, i + 1, n as int);
                    }
                    return Err(archive_error(e));
                },
                Ok((name, data, stored)) => {
                    if !ends_str(&chars_of(&name), "/") {
                        let entry = Entry { name, data, stored };
                        let ghost before = p@;
                        let ghost ev = entry@;
                        p.entries.push(entry);
                        assert(p@ =~= before.push(ev));
                        assert(v[i as int] == Some(ev));
                    }
                },
            }
            i = i + 1;
        }
        Ok(p)
    }

    /// The content of the member with the name.
    pub fn get(&self, name: &str) -> (r: Option<&[u8]>)
        ensures
            match r {
                Some(b) => spec_get(self@, name@) == Some(b@),
                None => spec_get(self@, name@) is None,
            },
    {
        match self.index(name) {
            Some(i) => {
                assert(self@[i as int] == self.entries@[i as int]@);
                Some(self.entries[i].data.as_slice())
            },
            None => None,
        }
    }

    /// Whether there is a member with the name.
    pub fn contains(&self, name: &str) -> (r: bool)
        ensures
            r == spec_get(self@, name@) is Some,
    {
        self.index(name).is_some()
    }

    /// The names of the members, in order.
    pub fn names(&self) -> (r: Vec<String>)
        ensures
            text::strs(r@) == spec_names(self@),
    {
        let mut out: Vec<String> = Vec::new();
        let mut i: usize = 0;
        while i < self.entries.len()
            invariant
                i <= self.entries@.len(),
                text::strs(out@) == spec_names(self@).take(i as int),
            decreases self.entries@.len() - i,
        {
            add_str(&mut out, self.entries[i].name.clone());
            assert(spec_names(self@)[i as int] == self.entries@[i as int].name@);
            i = i + 1;
        }
        assert(spec_names(self@).take(self.entries@.len() as int) =~= spec_names(self@));
        out
    }

    /// Replaces the content of a member in place. Where there is none with the
    /// name, nothing changes and `false` comes back.
    pub fn replace(&mut self, name: &str, data: Vec<u8>) -> (r: bool)
        ensures
            final(self)@ == spec_replace(old(self)@, name@, data@),
            r == spec_get(old(self)@, name@) is Some,
    {
        match self.index(name) {
            Some(i) => {
                let ghost before = self@;
                let ghost dv = data@;
                assert(self@[i as int] == self.entries@[i as int]@);
                let entry = Entry {
                    name: self.entries[i].name.clone(),
                    data,
                    stored: self.entries[i].stored,
                };
                self.entries.set(i, entry);
                assert(self@ =~= before.update(
                    i as int,
                    Part { data: dv, ..before[i as int] },
                ));
                true
            },
            None => false,
        }
    }

    /// Replaces a member's content, or adds a new compressed member at the end.
    pub fn set(&mut self, name: &str, data: Vec<u8>)
        ensures
            final(self)@ == spec_set(old(self)@, name@, data@),
    {
        if self.contains(name) {
            self.replace(name, data);
        } else {
            let ghost before = self@;
            let ghost dv = data@;
            let entry = Entry { name: string_of(&chars_of(name)), data, stored: false };
            self.entries.push(entry);
            assert(self@ =~= before.push(Part { name: name@, data: dv, stored: false }));
        }
    }

    /// Removes the members with the name, and says whether there was one.
    pub fn remove(&mut self, name: &str) -> (r: bool)
        ensures
            final(self)@ == spec_remove(old(self)@, name@),
            r == (spec_remove(old(self)@, name@).len() != old(self)@.len()),
    {
        let ghost all = self@;
        let mut kept: Vec<Entry> = Vec::new();
        let n = self.entries.len();
        let mut i: usize = 0;
        while i < n
            invariant
                i <= n == all.len(),
                self@ == all,
                self.entries@.len() == n,
                kept@.map_values(|e: Entry| e@) =~= without(all, name@, i as int),
            decreases n - i,
        {
            assert(all[i as int] == self.entries@[i as int]@);
            if !str_is(&self.entries[i].name, name) {
                let ghost before = kept@.map_values(|e: Entry| e@);
                let e = copy_entry(&self.entries[i]);
                let ghost ev = e@;
                kept.push(e);
                assert(kept@.map_values(|e: Entry| e@) =~= before.push(ev));
            }
            i = i + 1;
        }
        let changed = kept.len() != n;
        self.entries = kept;
        changed
    }

    /// The path of the package document.
    pub fn opf_path(&self) -> (r: Result<String, Error>)
        ensures
            error::str_result(r) == spec_opf_path(self@),
    {
        match self.get("META-INF/container.xml") {
            None => Err(refuse(ErrorKind::NotFound, "EPUB has no META-INF/container.xml")),
            Some(bytes) => match parse_container_xml(bytes) {
                Ok(path) => Ok(percent_decode(&path)),
                Err(e) => Err(e),
            },
        }
    }

    /// The bytes of the package document.
    pub fn opf_bytes(&self) -> (r: Result<&[u8], Error>)
        ensures
            match r {
                Ok(b) => spec_opf_bytes(self@) == Ok::<Seq<u8>, Fault>(b@),
                Err(e) => spec_opf_bytes(self@) == Err::<Seq<u8>, Fault>(e@),
            },
    {
        match self.opf_path() {
            Err(e) => Err(e),
            Ok(path) => match self.get(&path) {
                Some(b) => Ok(b),
                None => Err(refuse_named(ErrorKind::NotFound, "OPF not found at ", &path, "")),
            },
        }
    }

    /// A package of the members that `names` names, each with its content, its
    /// order and its storage.
    pub fn subset(&self, names: &Vec<String>) -> (r: EpubPackage)
        ensures
            r@ == kept_to(self@, text::strs(names@), self@.len() as int),
    {
        let ghost ns = text::strs(names@);
        let n = self.entries.len();
        assert(self@.len() == n);
        let mut out = EpubPackage { entries: Vec::new() };
        assert(out@ =~= Seq::empty());
        let mut i: usize = 0;
        while i < n
            invariant
                i <= n,
                n == self.entries@.len(),
                n == self@.len(),
                ns == text::strs(names@),
                out@ == kept_to(self@, ns, i as int),
            decreases n - i,
        {
            assert(self@[i as int] == self.entries@[i as int]@);
            if strs_have(names, &chars_of(&self.entries[i].name)) {
                let ghost before = out@;
                let e = copy_entry(&self.entries[i]);
                let ghost ev = e@;
                out.entries.push(e);
                assert(out@ =~= before.push(ev));
            }
            i = i + 1;
        }
        out
    }

    /// The EPUB as an archive.
    pub fn into_bytes(self) -> (r: Result<Vec<u8>, Error>)
        ensures
            written(r, self@),
    {
        self.to_bytes()
    }

    /// The EPUB as an archive, `mimetype` first and stored. A name that an
    /// archive cannot say is refused.
    pub fn to_bytes(&self) -> (r: Result<Vec<u8>, Error>)
        ensures
            written(r, self@),
    {
        let mut i: usize = 0;
        while i < self.entries.len()
            invariant
                i <= self.entries@.len(),
                forall|k: int|
                    0 <= k < i ==> vstd::utf8::encode_utf8((#[trigger] self@[k]).name).len()
                        <= 0xffff,
            decreases self.entries@.len() - i,
        {
            assert(self@[i as int] == self.entries@[i as int]@);
            if self.entries[i].name.as_str().as_bytes().len() > 0xffff {
                return Err(refuse(ErrorKind::InvalidInput, "a member's name is too long"));
            }
            i = i + 1;
        }
        let mut w = writer();
        let body = match self.get("mimetype") {
            Some(b) => same_bytes(b),
            None => bytes_of("application/epub+zip"),
        };
        proof {
            reveal_strlit("mimetype");
            lemma_short_name();
        }
        let ghost first = Part { name: "mimetype"@, data: body@, stored: true };
        proof {
            lemma_room(packed(self@), 1);
            assert(packed(self@).take(1) =~= seq![first]);
            assert(archive::put_so_far(w).push(first) =~= seq![first]);
        }
        if let Err(e) = put_file(&mut w, "mimetype", &body, true) {
            return Err(archive_error(e));
        }
        assert(archive::put_so_far(w) =~= seq![first] + without(self@, "mimetype"@, 0));
        i = 0;
        while i < self.entries.len()
            invariant
                i <= self.entries@.len(),
                forall|k: int|
                    0 <= k < self@.len() ==> vstd::utf8::encode_utf8(
                        (#[trigger] self@[k]).name,
                    ).len() <= 0xffff,
                packed(self@) == seq![first] + spec_remove(self@, "mimetype"@),
                archive::put_so_far(w) == seq![first] + without(self@, "mimetype"@, i as int),
            decreases self.entries@.len() - i,
        {
            assert(self@[i as int] == self.entries@[i as int]@);
            let e = &self.entries[i];
            if !str_is(&e.name, "mimetype") {
                proof {
                    if fits(self@) {
                        lemma_next_fits(self@, first, i as int);
                    }
                }
                if let Err(x) = put_file(&mut w, &e.name, &e.data, e.stored) {
                    return Err(archive_error(x));
                }
                assert(archive::put_so_far(w) =~= seq![first] + without(
                    self@,
                    "mimetype"@,
                    i + 1,
                ));
            }
            i = i + 1;
        }
        match finish(w) {
            Ok(b) => Ok(b),
            Err(e) => Err(archive_error(e)),
        }
    }
}

/// The bytes are an archive of the packed members, in their order.
pub open spec fn is_archive_of(bytes: Seq<u8>, p: Seq<Part>) -> bool {
    archive::entries_of(bytes) == Some(packed(p).map_values(|m: Part| Some(m)))
}

/// What writing the members `p` comes to: where they fit an archive, the archive
/// of the packed members; a refusal for an overlong name; else that archive, or
/// an error of the archive.
pub open spec fn written(r: Result<Vec<u8>, Error>, p: Seq<Part>) -> bool {
    (fits(p) ==> r is Ok) && match r {
        Ok(b) => !overlong(p) && (archive::comes_back(packed(p), b@) ==> is_archive_of(b@, p)),
        Err(e) => if overlong(p) {
            e@ == Fault::Said(ErrorKind::InvalidInput, "a member's name is too long"@)
        } else {
            e@ == Fault::Archive
        },
    }
}

proof fn lemma_without_prefix(p: Seq<Part>, gone: Seq<char>, i: int, n: int)
    requires
        0 <= i <= n <= p.len(),
    ensures
        without(p, gone, i).len() <= without(p, gone, n).len(),
        without(p, gone, n).take(without(p, gone, i).len() as int) == without(p, gone, i),
    decreases n - i,
{
    let a = without(p, gone, i);
    if i < n {
        lemma_without_prefix(p, gone, i, n - 1);
        let b = without(p, gone, n - 1);
        assert(without(p, gone, n).take(a.len() as int) =~= b.take(a.len() as int));
    } else {
        assert(a.take(a.len() as int) =~= a);
    }
}

pub proof fn lemma_room(v: Seq<Part>, k: int)
    requires
        0 <= k <= v.len(),
    ensures
        archive::room(v.take(k)) <= archive::room(v),
    decreases v.len(),
{
    if k < v.len() {
        lemma_room(v.drop_last(), k);
        assert(v.drop_last().take(k) =~= v.take(k));
    } else {
        assert(v.take(k) =~= v);
    }
}

/// Of members that fit an archive, the one at `i` can be put behind those before
/// it.
proof fn lemma_next_fits(p: Seq<Part>, first: Part, i: int)
    requires
        fits(p),
        0 <= i < p.len(),
        p[i].name != "mimetype"@,
        packed(p) == seq![first] + spec_remove(p, "mimetype"@),
    ensures
        ({
            let v = seq![first] + without(p, "mimetype"@, i);
            &&& forall|k: int| 0 <= k < v.len() ==> (#[trigger] v[k]).name != p[i].name
            &&& archive::room(v.push(p[i])) <= 0x7fff_ffff
        }),
{
    let gone = "mimetype"@;
    let v = seq![first] + without(p, gone, i);
    let all = packed(p);
    lemma_without_prefix(p, gone, i + 1, p.len() as int);
    let more = without(p, gone, i + 1);
    assert(more == without(p, gone, i).push(p[i]));
    let n = v.len() as int;
    assert(all.take(n + 1) =~= v.push(p[i])) by {
        assert(all.take(n + 1) =~= seq![first] + spec_remove(p, gone).take(more.len() as int));
    }
    lemma_room(all, n + 1);
    assert(all[n] == all.take(n + 1)[n]);
    assert forall|k: int| 0 <= k < v.len() implies (#[trigger] v[k]).name != p[i].name by {
        assert(all[k] == all.take(n + 1)[k]);
    }
}

fn copy_entry(e: &Entry) -> (r: Entry)
    ensures
        r@ == e@,
{
    Entry { name: e.name.clone(), data: same_bytes(&e.data), stored: e.stored }
}

proof fn lemma_short_name()
    ensures
        vstd::utf8::encode_utf8("mimetype"@).len() <= 0xffff,
{
    reveal_strlit("mimetype");
    assert(vstd::utf8::is_ascii_chars("mimetype"@));
    vstd::utf8::is_ascii_chars_encode_utf8("mimetype"@);
}

proof fn lemma_members_none(v: Seq<Option<Part>>, i: int, n: int)
    requires
        0 < i <= n <= v.len(),
        v[i - 1] is None,
    ensures
        members_to(v, n) is None,
    decreases n,
{
    if n > i {
        lemma_members_none(v, i, n - 1);
    }
}

// ---------------------------------------------------------------- laws

proof fn lemma_members_all(v: Seq<Option<Part>>, p: Seq<Part>, n: int)
    requires
        0 <= n <= p.len(),
        v == p.map_values(|m: Part| Some(m)),
        forall|i: int| 0 <= i < p.len() ==> !text::spec_ends((#[trigger] p[i]).name, "/"@),
    ensures
        members_to(v, n) == Some(p.take(n)),
    decreases n,
{
    if n > 0 {
        lemma_members_all(v, p, n - 1);
        assert(v[n - 1] == Some(p[n - 1]));
        assert(p.take(n) =~= p.take(n - 1).push(p[n - 1]));
    } else {
        assert(p.take(0) =~= Seq::<Part>::empty());
    }
}

/// What is written is read back: an archive of the packed members parses to
/// them, every name, content and order kept, unless a name is a directory's.
pub proof fn what_is_written_is_read_back(p: Seq<Part>, bytes: Seq<u8>)
    requires
        is_archive_of(bytes, p),
        forall|i: int|
            0 <= i < packed(p).len() ==> !text::spec_ends((#[trigger] packed(p)[i]).name, "/"@),
    ensures
        spec_parse(bytes) == Some(packed(p)),
{
    let q = packed(p);
    let v = q.map_values(|m: Part| Some(m));
    lemma_members_all(v, q, q.len() as int);
    assert(q.take(q.len() as int) =~= q);
}

/// Members with different names keep them apart in an archive.
pub proof fn packing_keeps_names_apart(p: Seq<Part>)
    requires
        names_differ(p),
    ensures
        names_differ(packed(p)),
{
    lemma_without_differ(p, "mimetype"@, p.len() as int);
    let w = spec_remove(p, "mimetype"@);
    let q = packed(p);
    assert forall|i: int, j: int| 0 <= i < j < q.len() implies (#[trigger] q[i]).name != (
    #[trigger] q[j]).name by {
        assert(q[j] == w[j - 1]);
        if i > 0 {
            assert(q[i] == w[i - 1]);
        }
    }
}

proof fn lemma_without_differ(p: Seq<Part>, gone: Seq<char>, n: int)
    requires
        names_differ(p),
        0 <= n <= p.len(),
    ensures
        names_differ(without(p, gone, n)),
        forall|k: int| 0 <= k < without(p, gone, n).len() ==> (#[trigger] without(p, gone, n)[k]).name != gone,
        forall|k: int, j: int|
            0 <= k < without(p, gone, n).len() && n <= j < p.len() ==> (#[trigger] without(p, gone, n)[k]).name
                != (#[trigger] p[j]).name,
    decreases n,
{
    if n > 0 {
        lemma_without_differ(p, gone, n - 1);
        assert forall|k: int, j: int|
            0 <= k < without(p, gone, n).len() && n <= j < p.len() implies (
        #[trigger] without(p, gone, n)[k]).name != (#[trigger] p[j]).name by {
            if k < without(p, gone, n - 1).len() {
                assert(without(p, gone, n)[k] == without(p, gone, n - 1)[k]);
            } else {
                assert(p[n - 1].name != p[j].name);
            }
        }
    }
}

/// `mimetype` is the first member of a packed EPUB, and stored.
pub proof fn mimetype_is_first_and_stored(p: Seq<Part>)
    ensures
        packed(p).len() > 0,
        packed(p)[0].name == "mimetype"@,
        packed(p)[0].stored,
{
}

proof fn lemma_without_get(p: Seq<Part>, gone: Seq<char>, name: Seq<char>, n: int)
    requires
        0 <= n <= p.len(),
        name != gone,
    ensures
        spec_get(without(p, gone, n), name) == spec_get(p.take(n), name),
    decreases n,
{
    let q = without(p, gone, n);
    if n > 0 {
        lemma_without_get(p, gone, name, n - 1);
        assert(p.take(n) =~= p.take(n - 1).push(p[n - 1]));
        lemma_get_push(p.take(n - 1), p[n - 1], name);
        lemma_get_push(without(p, gone, n - 1), p[n - 1], name);
    } else {
        assert(p.take(0) =~= Seq::<Part>::empty());
    }
}

pub proof fn lemma_get_push(p: Seq<Part>, m: Part, name: Seq<char>)
    ensures
        spec_get(p.push(m), name) == match spec_get(p, name) {
            Some(d) => Some(d),
            None => if m.name == name {
                Some(m.data)
            } else {
                None
            },
        },
{
    let q = p.push(m);
    lemma_member_at(p, name, 0);
    lemma_member_at(q, name, 0);
    match member_at(p, name, 0) {
        Some(k) => {
            assert(q[k] == p[k]);
            let j = member_at(q, name, 0)->0;
            if j < k {
                assert(q[j] == p[j]);
            } else if k < j {
                assert(q[k].name != name);
            }
        },
        None => {
            if m.name == name {
                assert(q[p.len() as int].name == name);
                let j = member_at(q, name, 0)->0;
                if j < p.len() {
                    assert(q[j] == p[j]);
                }
            } else {
                if let Some(j) = member_at(q, name, 0) {
                    if j < p.len() {
                        assert(q[j] == p[j]);
                    }
                }
            }
        },
    }
}

/// Removing a member takes it away and leaves the content of every other name.
pub proof fn removing_leaves_the_others(p: Seq<Part>, gone: Seq<char>, name: Seq<char>)
    ensures
        name != gone ==> spec_get(spec_remove(p, gone), name) == spec_get(p, name),
        spec_get(spec_remove(p, gone), gone) is None,
{
    if name != gone {
        lemma_without_get(p, gone, name, p.len() as int);
        assert(p.take(p.len() as int) =~= p);
    }
    lemma_without_gone(p, gone, p.len() as int);
}

proof fn lemma_front(m: Part, p: Seq<Part>, name: Seq<char>, i: int)
    requires
        0 <= i <= p.len(),
    ensures
        member_at(seq![m] + p, name, i + 1) == match member_at(p, name, i) {
            Some(k) => Some(k + 1),
            None => None,
        },
    decreases p.len() - i,
{
    if i < p.len() {
        assert((seq![m] + p)[i + 1] == p[i]);
        lemma_front(m, p, name, i + 1);
    }
}

/// A packed package holds what the package holds, under every name; a package
/// without a `mimetype` member receives one.
pub proof fn packing_keeps_the_contents(p: Seq<Part>, name: Seq<char>)
    ensures
        spec_get(p, name) is Some || name != "mimetype"@ ==> spec_get(packed(p), name) == spec_get(
            p,
            name,
        ),
{
    let q = packed(p);
    let w = spec_remove(p, "mimetype"@);
    assert(q[0].name == "mimetype"@);
    if name != "mimetype"@ {
        removing_leaves_the_others(p, "mimetype"@, name);
        lemma_front(q[0], w, name, 0);
        lemma_member_at(w, name, 0);
        if let Some(k) = member_at(w, name, 0) {
            assert(q[k + 1] == w[k]);
        }
    }
}

proof fn lemma_members_no_directory(v: Seq<Option<Part>>, n: int, p: Seq<Part>)
    requires
        0 <= n <= v.len(),
        members_to(v, n) == Some(p),
    ensures
        forall|i: int| 0 <= i < p.len() ==> !text::spec_ends((#[trigger] p[i]).name, "/"@),
    decreases n,
{
    if n > 0 {
        let q = members_to(v, n - 1)->0;
        lemma_members_no_directory(v, n - 1, q);
        let m = v[n - 1]->0;
        if !text::spec_ends(m.name, "/"@) {
            assert(p == q.push(m));
        } else {
            assert(p == q);
        }
    }
}

/// No member of a package that was read is a directory.
pub proof fn no_member_is_a_directory(bytes: Seq<u8>, p: Seq<Part>)
    requires
        spec_parse(bytes) == Some(p),
    ensures
        forall|i: int| 0 <= i < p.len() ==> !text::spec_ends((#[trigger] p[i]).name, "/"@),
{
    if read_whole(bytes) is Some {
        let v = archive::entries_of(bytes)->0;
        lemma_members_no_directory(v, v.len() as int, p);
    } else {
        let v = archive::entries_of(zip_repair::spec_neutralize(bytes)->0)->0;
        lemma_members_no_directory(v, v.len() as int, p);
    }
}

/// Members with the names of others are no directories either.
pub proof fn lemma_names_kept(p: Seq<Part>, q: Seq<Part>)
    requires
        spec_names(q) == spec_names(p),
        forall|i: int| 0 <= i < p.len() ==> !text::spec_ends((#[trigger] p[i]).name, "/"@),
    ensures
        forall|i: int| 0 <= i < q.len() ==> !text::spec_ends((#[trigger] q[i]).name, "/"@),
{
    assert(spec_names(q).len() == q.len());
    assert(spec_names(p).len() == p.len());
    assert forall|i: int| 0 <= i < q.len() implies !text::spec_ends((#[trigger] q[i]).name, "/"@) by {
        assert(spec_names(q)[i] == q[i].name);
        assert(spec_names(p)[i] == p[i].name);
    }
}

proof fn lemma_without_from(p: Seq<Part>, gone: Seq<char>, n: int, k: int)
    requires
        0 <= n <= p.len(),
        0 <= k < without(p, gone, n).len(),
    ensures
        exists|j: int| 0 <= j < p.len() && #[trigger] p[j] == without(p, gone, n)[k],
    decreases n,
{
    if n > 0 {
        let q = without(p, gone, n - 1);
        if k < q.len() {
            lemma_without_from(p, gone, n - 1, k);
            assert(without(p, gone, n)[k] == q[k]);
        } else {
            assert(without(p, gone, n)[k] == p[n - 1]);
        }
    }
}

/// What is written of a package without directories is read back whole.
pub proof fn a_written_package_is_read_back(p: Seq<Part>, bytes: Vec<u8>)
    requires
        forall|i: int| 0 <= i < p.len() ==> !text::spec_ends((#[trigger] p[i]).name, "/"@),
        written(Ok(bytes), p),
        archive::comes_back(packed(p), bytes@),
    ensures
        spec_parse(bytes@) == Some(packed(p)),
{
    let q = packed(p);
    let w = spec_remove(p, "mimetype"@);
    assert forall|i: int| 0 <= i < q.len() implies !text::spec_ends((#[trigger] q[i]).name, "/"@) by {
        if i == 0 {
            reveal_strlit("mimetype");
            reveal_strlit("/");
            assert("mimetype"@.subrange(7, 8)[0] == 'e');
            assert("/"@[0] == '/');
        } else {
            assert(q[i] == w[i - 1]);
            lemma_without_from(p, "mimetype"@, p.len() as int, i - 1);
        }
    }
    what_is_written_is_read_back(p, bytes@);
}

proof fn lemma_without_gone(p: Seq<Part>, gone: Seq<char>, n: int)
    requires
        0 <= n <= p.len(),
    ensures
        spec_get(without(p, gone, n), gone) is None,
    decreases n,
{
    if n > 0 {
        lemma_without_gone(p, gone, n - 1);
        lemma_get_push(without(p, gone, n - 1), p[n - 1], gone);
    }
}

proof fn lemma_update_get(p: Seq<Part>, i: int, data: Seq<u8>, name: Seq<char>)
    requires
        0 <= i < p.len(),
        member_at(p, p[i].name, 0) == Some(i),
    ensures
        spec_get(p.update(i, Part { data, ..p[i] }), name) == if name == p[i].name {
            Some(data)
        } else {
            spec_get(p, name)
        },
{
    let q = p.update(i, Part { data, ..p[i] });
    assert forall|k: int| 0 <= k < p.len() implies (#[trigger] q[k]).name == p[k].name by {}
    lemma_same_names(p, q, name, 0);
    lemma_member_at(p, name, 0);
}

proof fn lemma_same_names(p: Seq<Part>, q: Seq<Part>, name: Seq<char>, i: int)
    requires
        0 <= i,
        p.len() == q.len(),
        forall|k: int| 0 <= k < p.len() ==> (#[trigger] q[k]).name == p[k].name,
    ensures
        member_at(q, name, i) == member_at(p, name, i),
    decreases p.len() - i,
{
    if i < p.len() {
        assert(q[i].name == p[i].name);
        if p[i].name != name {
            lemma_same_names(p, q, name, i + 1);
        }
    }
}

/// A member that is set has the content it was set to, and every other name
/// keeps what it had.
pub proof fn setting_changes_one_member(
    p: Seq<Part>,
    name: Seq<char>,
    data: Seq<u8>,
    other: Seq<char>,
)
    ensures
        spec_get(spec_set(p, name, data), name) == Some(data),
        other != name ==> spec_get(spec_set(p, name, data), other) == spec_get(p, other),
{
    lemma_member_at(p, name, 0);
    match member_at(p, name, 0) {
        Some(i) => {
            lemma_update_get(p, i, data, name);
            lemma_update_get(p, i, data, other);
        },
        None => {
            let m = Part { name, data, stored: false };
            lemma_get_push(p, m, name);
            lemma_get_push(p, m, other);
        },
    }
}

/// A replacement changes one member at the most: the content of the name it is
/// for, where there is such a member.
pub proof fn replacing_is_surgical(
    p: Seq<Part>,
    name: Seq<char>,
    data: Seq<u8>,
    other: Seq<char>,
)
    ensures
        spec_names(spec_replace(p, name, data)) == spec_names(p),
        spec_get(p, name) is Some ==> spec_get(spec_replace(p, name, data), name) == Some(data),
        spec_get(p, name) is None ==> spec_replace(p, name, data) == p,
        other != name ==> spec_get(spec_replace(p, name, data), other) == spec_get(p, other),
{
    lemma_member_at(p, name, 0);
    if let Some(i) = member_at(p, name, 0) {
        lemma_update_get(p, i, data, name);
        lemma_update_get(p, i, data, other);
    }
    assert(spec_names(spec_replace(p, name, data)) =~= spec_names(p));
}

// ---------------------------------------------------------------- one member

/// The content that one entry of an archive gives for a name.
pub open spec fn named_in(v: Seq<Option<Part>>, name: Seq<char>, r: Option<Seq<u8>>) -> bool {
    match r {
        Some(data) => exists|i: int|
            0 <= i < v.len() && (match #[trigger] v[i] {
                Some(p) => p.name == name && p.data == data,
                None => false,
            }),
        None => forall|i: int|
            0 <= i < v.len() ==> match #[trigger] v[i] {
                Some(p) => p.name != name,
                None => true,
            },
    }
}

/// What reading one member of the archive `bytes` comes to.
pub open spec fn read_one(r: Result<Option<Vec<u8>>, Error>, bytes: Seq<u8>, name: Seq<char>) -> bool {
    match r {
        Ok(found) => archive::entries_of(bytes) matches Some(v) && named_in(
            v,
            name,
            match found {
                Some(d) => Some(d@),
                None => None,
            },
        ),
        Err(e) => e@ == Fault::Archive && read_whole(bytes) is None,
    }
}

fn read_member_inner(bytes: &[u8], name: &str) -> (r: Result<Option<Vec<u8>>, Error>)
    ensures
        read_one(r, bytes@, name@),
{
    let mut a = match open(bytes) {
        Ok(a) => a,
        Err(e) => {
            return Err(archive_error(e));
        },
    };
    let ghost v = archive::held(a);
    match read_named(&mut a, name) {
        Ok(found) => Ok(found),
        Err(e) => {
            proof {
                let i = choose|i: int| 0 <= i < v.len() && (#[trigger] v[i]) is None;
                lemma_members_none(v, i + 1, v.len() as int);
            }
            Err(archive_error(e))
        },
    }
}

/// What reading one member of an EPUB comes to: an archive that gives the member
/// as it is is not repaired, and one that can be repaired is refused only once
/// it is.
pub open spec fn member_read(
    r: Result<Option<Vec<u8>>, Error>,
    bytes: Seq<u8>,
    name: Seq<char>,
) -> bool {
    ||| r is Ok && read_one(r, bytes, name)
    ||| read_whole(bytes) is None && match zip_repair::spec_neutralize(bytes) {
        Some(repaired) => read_one(r, repaired, name),
        None => read_one(r, bytes, name),
    }
}

/// Reads one member of an EPUB: its content, or nothing where no entry has the
/// name. Where the archive cannot be read as it is, it is read with its spurious
/// ZIP64 fields neutralized.
pub fn read_member(bytes: &[u8], name: &str) -> (r: Result<Option<Vec<u8>>, Error>)
    ensures
        member_read(r, bytes@, name@),
{
    match read_member_inner(bytes, name) {
        Ok(found) => Ok(found),
        Err(first) => match neutralize_spurious_zip64(bytes) {
            Some(repaired) => read_member_inner(&repaired, name),
            None => Err(first),
        },
    }
}

proof fn lemma_members_get(v: Seq<Option<Part>>, name: Seq<char>, n: int)
    requires
        0 <= n <= v.len(),
        members_to(v, n) is Some,
        archive::names_differ(v),
        !text::spec_ends(name, "/"@),
    ensures
        spec_get(members_to(v, n)->0, name) matches Some(d) ==> exists|i: int|
            0 <= i < n && (#[trigger] v[i]) is Some && v[i]->0.name == name && v[i]->0.data == d,
        spec_get(members_to(v, n)->0, name) is None ==> forall|i: int|
            0 <= i < n && (#[trigger] v[i]) is Some ==> v[i]->0.name != name,
    decreases n,
{
    if n > 0 {
        lemma_members_get(v, name, n - 1);
        let before = members_to(v, n - 1)->0;
        let m = v[n - 1]->0;
        lemma_get_push(before, m, name);
        if spec_get(before, name) is Some {
            let i = choose|i: int|
                0 <= i < n - 1 && (#[trigger] v[i]) is Some && v[i]->0.name == name
                    && v[i]->0.data == spec_get(before, name)->0;
            assert(v[i] is Some);
        } else if m.name == name {
            assert(v[n - 1] is Some);
        }
    }
}

/// Reading one member agrees with parsing the whole: what `read_member` gives
/// for a name is what the parsed package holds under it.
pub proof fn one_member_agrees_with_the_whole(
    bytes: Seq<u8>,
    v: Seq<Option<Part>>,
    p: Seq<Part>,
    name: Seq<char>,
    found: Option<Seq<u8>>,
)
    requires
        archive::entries_of(bytes) == Some(v),
        archive::names_differ(v),
        read_whole(bytes) == Some(p),
        !text::spec_ends(name, "/"@),
        named_in(v, name, found),
    ensures
        spec_get(p, name) == found,
{
    lemma_members_get(v, name, v.len() as int);
    match (spec_get(p, name), found) {
        (Some(d), Some(f)) => {
            let i = choose|i: int|
                0 <= i < v.len() && (#[trigger] v[i]) is Some && v[i]->0.name == name
                    && v[i]->0.data == d;
            let j = choose|j: int|
                0 <= j < v.len() && (match #[trigger] v[j] {
                    Some(p) => p.name == name && p.data == f,
                    None => false,
                });
            if i < j {
                assert(v[i]->0.name != v[j]->0.name);
            } else if j < i {
                assert(v[j]->0.name != v[i]->0.name);
            }
        },
        (Some(d), None) => {
            let i = choose|i: int|
                0 <= i < v.len() && (#[trigger] v[i]) is Some && v[i]->0.name == name
                    && v[i]->0.data == d;
            assert(v[i] is Some);
        },
        (None, Some(f)) => {
            let j = choose|j: int|
                0 <= j < v.len() && (match #[trigger] v[j] {
                    Some(p) => p.name == name && p.data == f,
                    None => false,
                });
            assert(v[j] is Some);
        },
        (None, None) => {},
    }
}

/// The same of an archive that cannot be opened until it is repaired: what
/// `read_member` gives for a name is what the package parsed from it holds.
pub proof fn one_member_agrees_once_repaired(
    bytes: Seq<u8>,
    repaired: Seq<u8>,
    v: Seq<Option<Part>>,
    p: Seq<Part>,
    name: Seq<char>,
    r: Result<Option<Vec<u8>>, Error>,
)
    requires
        archive::entries_of(bytes) is None,
        zip_repair::spec_neutralize(bytes) == Some(repaired),
        archive::entries_of(repaired) == Some(v),
        archive::names_differ(v),
        spec_parse(bytes) == Some(p),
        !text::spec_ends(name, "/"@),
        member_read(r, bytes, name),
    ensures
        r matches Ok(found) && spec_get(p, name) == match found {
            Some(d) => Some(d@),
            None => None,
        },
{
    let found = match r->Ok_0 {
        Some(d) => Some(d@),
        None => None,
    };
    one_member_agrees_with_the_whole(repaired, v, p, name, found);
}

// ---------------------------------------------------------------- changes

/// What an operation did: the members it changed, added (with their media type)
/// and removed, and notes on it.
#[derive(Debug, Clone)]
pub struct Changes {
    pub changed: Vec<String>,
    pub added: Vec<(String, String)>,
    pub removed: Vec<String>,
    pub notes: Vec<String>,
}

/// What a `Changes` says.
#[verifier::ext_equal]
pub struct Log {
    pub changed: Seq<Seq<char>>,
    pub added: Seq<(Seq<char>, Seq<char>)>,
    pub removed: Seq<Seq<char>>,
    pub notes: Seq<Seq<char>>,
}

pub open spec fn pairs(v: Seq<(String, String)>) -> Seq<(Seq<char>, Seq<char>)> {
    v.map_values(|p: (String, String)| (p.0@, p.1@))
}

impl View for Changes {
    type V = Log;

    open spec fn view(&self) -> Log {
        Log {
            changed: text::strs(self.changed@),
            added: pairs(self.added@),
            removed: text::strs(self.removed@),
            notes: text::strs(self.notes@),
        }
    }
}

/// A log of nothing.
pub open spec fn no_changes() -> Log {
    Log {
        changed: Seq::empty(),
        added: Seq::empty(),
        removed: Seq::empty(),
        notes: Seq::empty(),
    }
}

/// What a result with changes says.
pub open spec fn changes_result(r: Result<Changes, Error>) -> Result<Log, Fault> {
    match r {
        Ok(c) => Ok(c@),
        Err(e) => Err(e@),
    }
}

/// The first `n` of `v` but those that are `x`.
pub open spec fn others(v: Seq<Seq<char>>, x: Seq<char>, n: int) -> Seq<Seq<char>>
    decreases n,
{
    if n <= 0 {
        Seq::empty()
    } else if v[n - 1] == x {
        others(v, x, n - 1)
    } else {
        others(v, x, n - 1).push(v[n - 1])
    }
}

/// The member was added.
pub open spec fn was_added(v: Seq<(Seq<char>, Seq<char>)>, path: Seq<char>) -> bool {
    exists|i: int| 0 <= i < v.len() && (#[trigger] v[i]).0 == path
}

impl Log {
    pub open spec fn touched(self, path: Seq<char>) -> Log {
        if self.changed.contains(path) || was_added(self.added, path) {
            self
        } else {
            Log { changed: self.changed.push(path), ..self }
        }
    }

    pub open spec fn with_added(self, path: Seq<char>, media_type: Seq<char>) -> Log {
        Log { added: self.added.push((path, media_type)), ..self }
    }

    pub open spec fn dropped(self, path: Seq<char>) -> Log {
        Log {
            changed: others(self.changed, path, self.changed.len() as int),
            removed: self.removed.push(path),
            ..self
        }
    }

    pub open spec fn noted(self, note: Seq<char>) -> Log {
        Log { notes: self.notes.push(note), ..self }
    }
}

impl Default for Changes {
    fn default() -> (r: Changes)
        ensures
            r@ == no_changes(),
    {
        let r = Changes {
            changed: Vec::new(),
            added: Vec::new(),
            removed: Vec::new(),
            notes: Vec::new(),
        };
        assert(r@ =~= no_changes());
        r
    }
}

impl Changes {
    /// Whether the member was added.
    pub fn added_here(&self, path: &str) -> (r: bool)
        ensures
            r == was_added(self@.added, path@),
    {
        let mut i: usize = 0;
        while i < self.added.len()
            invariant
                i <= self.added@.len(),
                forall|k: int| 0 <= k < i ==> (#[trigger] self@.added[k]).0 != path@,
            decreases self.added@.len() - i,
        {
            assert(self@.added[i as int] == (self.added@[i as int].0@, self.added@[i as int].1@));
            if str_is(&self.added[i].0, path) {
                return true;
            }
            i = i + 1;
        }
        false
    }

    /// Notes that a member changed, once, and not where it was added.
    pub fn touch(&mut self, path: &str)
        ensures
            final(self)@ == old(self)@.touched(path@),
    {
        if !strs_have(&self.changed, &chars_of(path)) && !self.added_here(path) {
            let ghost before = self@;
            add_str(&mut self.changed, string_of(&chars_of(path)));
            assert(self@ =~= Log { changed: before.changed.push(path@), ..before });
        }
    }

    /// Notes that a member was added.
    pub fn add(&mut self, path: &str, media_type: &str)
        ensures
            final(self)@ == old(self)@.with_added(path@, media_type@),
    {
        let ghost before = self@;
        self.added.push((string_of(&chars_of(path)), string_of(&chars_of(media_type))));
        assert(self@ =~= before.with_added(path@, media_type@));
    }

    /// Notes that a member was removed; it no longer counts as changed.
    pub fn drop(&mut self, path: &str)
        ensures
            final(self)@ == old(self)@.dropped(path@),
    {
        let ghost before = self@;
        let mut kept: Vec<String> = Vec::new();
        assert(text::strs(kept@) =~= Seq::<Seq<char>>::empty());
        let mut i: usize = 0;
        while i < self.changed.len()
            invariant
                i <= self.changed@.len(),
                self@ == before,
                text::strs(kept@) == others(before.changed, path@, i as int),
            decreases self.changed@.len() - i,
        {
            assert(before.changed[i as int] == self.changed@[i as int]@);
            if !str_is(&self.changed[i], path) {
                add_str(&mut kept, self.changed[i].clone());
            }
            i = i + 1;
        }
        self.changed = kept;
        add_str(&mut self.removed, string_of(&chars_of(path)));
        assert(self@ =~= before.dropped(path@));
    }

    /// Adds a note.
    pub fn note(&mut self, note: &str)
        ensures
            final(self)@ == old(self)@.noted(note@),
    {
        let ghost before = self@;
        add_str(&mut self.notes, string_of(&chars_of(note)));
        assert(self@ =~= before.noted(note@));
    }

    /// Whether nothing was changed, added or removed.
    pub fn is_empty(&self) -> (r: bool)
        ensures
            r == (self@.changed.len() == 0 && self@.added.len() == 0 && self@.removed.len() == 0),
    {
        self.changed.len() == 0 && self.added.len() == 0 && self.removed.len() == 0
    }
}

// ---------------------------------------------------------------- accounting

impl Log {
    /// The changes name the member: as changed, as added or as removed.
    pub open spec fn names(self, name: Seq<char>) -> bool {
        self.changed.contains(name) || was_added(self.added, name) || self.removed.contains(name)
    }
}

/// The changes account for what became of the package `p`: a member that they do
/// not name has in `q` the content that it has in `p`.
pub open spec fn accounts_for(log: Log, p: Seq<Part>, q: Seq<Part>) -> bool {
    forall|name: Seq<char>|
        !log.names(name) ==> #[trigger] spec_get(q, name) == spec_get(p, name)
}

proof fn lemma_others(v: Seq<Seq<char>>, x: Seq<char>, y: Seq<char>, n: int)
    requires
        0 <= n <= v.len(),
        x != y,
    ensures
        v.take(n).contains(y) ==> others(v, x, n).contains(y),
    decreases n,
{
    if n > 0 {
        lemma_others(v, x, y, n - 1);
        let before = others(v, x, n - 1);
        if v.take(n).contains(y) {
            let k = choose|k: int| 0 <= k < n && #[trigger] v.take(n)[k] == y;
            if k < n - 1 {
                assert(v.take(n - 1)[k] == y);
                let j = choose|j: int| 0 <= j < before.len() && #[trigger] before[j] == y;
                assert(before.push(v[n - 1])[j] == y);
            } else {
                assert(before.push(v[n - 1])[before.len() as int] == y);
            }
        }
    }
}

/// What later changes name includes what earlier ones did.
pub proof fn lemma_names_grow(
    log: Log,
    path: Seq<char>,
    media: Seq<char>,
    note: Seq<char>,
    name: Seq<char>,
)
    ensures
        log.touched(path).names(name) == (log.names(name) || (name == path)),
        log.with_added(path, media).names(name) == (log.names(name) || (name == path)),
        log.noted(note).names(name) == log.names(name),
        log.names(name) || name == path ==> log.dropped(path).names(name),
{
    let touched = log.touched(path).changed;
    if log.changed.contains(name) {
        let k = choose|k: int| 0 <= k < log.changed.len() && log.changed[k] == name;
        assert(touched[k] == name);
        assert(log.changed.take(log.changed.len() as int) =~= log.changed);
        if name != path {
            lemma_others(log.changed, path, name, log.changed.len() as int);
        }
    }
    if name == path {
        if touched.len() > log.changed.len() {
            assert(touched[log.changed.len() as int] == path);
        }
        let a = log.with_added(path, media).added;
        assert(a[log.added.len() as int].0 == path);
        let r = log.dropped(path).removed;
        assert(r[log.removed.len() as int] == path);
    }
    if was_added(log.added, name) {
        let k = choose|k: int| 0 <= k < log.added.len() && (#[trigger] log.added[k]).0 == name;
        assert(log.with_added(path, media).added[k].0 == name);
    }
    if was_added(log.with_added(path, media).added, name) && name != path {
        let a = log.with_added(path, media).added;
        let k = choose|k: int| 0 <= k < a.len() && (#[trigger] a[k]).0 == name;
        assert(k < log.added.len());
        assert(log.added[k].0 == name);
    }
    if log.removed.contains(name) {
        let k = choose|k: int| 0 <= k < log.removed.len() && log.removed[k] == name;
        assert(log.dropped(path).removed[k] == name);
    }
    if touched.contains(name) && name != path {
        let k = choose|k: int| 0 <= k < touched.len() && touched[k] == name;
        assert(log.changed[k] == name);
    }
}

/// A replaced member that is noted as changed is accounted for.
pub proof fn lemma_accounts_replace(
    log: Log,
    p: Seq<Part>,
    q: Seq<Part>,
    path: Seq<char>,
    data: Seq<u8>,
)
    requires
        accounts_for(log, p, q),
    ensures
        accounts_for(log.touched(path), p, spec_replace(q, path, data)),
{
    let r = spec_replace(q, path, data);
    assert forall|name: Seq<char>| !log.touched(path).names(name) implies #[trigger] spec_get(
        r,
        name,
    ) == spec_get(p, name) by {
        lemma_names_grow(log, path, path, path, name);
        replacing_is_surgical(q, path, data, name);
        assert(spec_get(q, name) == spec_get(p, name));
    }
}

/// A member that is set and noted as added is accounted for.
pub proof fn lemma_accounts_set(
    log: Log,
    p: Seq<Part>,
    q: Seq<Part>,
    path: Seq<char>,
    media: Seq<char>,
    data: Seq<u8>,
)
    requires
        accounts_for(log, p, q),
    ensures
        accounts_for(log.with_added(path, media), p, spec_set(q, path, data)),
{
    let r = spec_set(q, path, data);
    assert forall|name: Seq<char>| !log.with_added(path, media).names(
        name,
    ) implies #[trigger] spec_get(r, name) == spec_get(p, name) by {
        lemma_names_grow(log, path, media, path, name);
        setting_changes_one_member(q, path, data, name);
        assert(spec_get(q, name) == spec_get(p, name));
    }
}

/// A member that is removed and noted as such is accounted for.
pub proof fn lemma_accounts_remove(log: Log, p: Seq<Part>, q: Seq<Part>, path: Seq<char>)
    requires
        accounts_for(log, p, q),
    ensures
        accounts_for(log.dropped(path), p, spec_remove(q, path)),
{
    let r = spec_remove(q, path);
    assert forall|name: Seq<char>| !log.dropped(path).names(name) implies #[trigger] spec_get(
        r,
        name,
    ) == spec_get(p, name) by {
        lemma_names_grow(log, path, path, path, name);
        removing_leaves_the_others(q, path, name);
        assert(spec_get(q, name) == spec_get(p, name));
    }
}

/// A note names no member.
pub proof fn lemma_accounts_note(log: Log, p: Seq<Part>, q: Seq<Part>, note: Seq<char>)
    requires
        accounts_for(log, p, q),
    ensures
        accounts_for(log.noted(note), p, q),
{
    assert forall|name: Seq<char>| !log.noted(note).names(name) implies #[trigger] spec_get(
        q,
        name,
    ) == spec_get(p, name) by {
        lemma_names_grow(log, note, note, note, name);
    }
}

} // verus!
