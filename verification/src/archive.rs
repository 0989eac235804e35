//! Zip archives in memory, through the `zip` crate.
use vstd::prelude::*;

verus! {

#[verifier::external_type_specification]
#[verifier::external_body]
#[verifier::reject_recursive_types(T)]
pub struct ExCursor<T>(std::io::Cursor<T>);

#[verifier::external_type_specification]
#[verifier::external_body]
#[verifier::reject_recursive_types(R)]
pub struct ExZipArchive<R>(zip::ZipArchive<R>);

/// A `zip::ZipWriter` that writes into memory.
#[verifier::external_body]
pub struct Writer {
    inner: zip::ZipWriter<std::io::Cursor<Vec<u8>>>,
}

#[verifier::external_type_specification]
#[verifier::external_body]
pub struct ExZipError(zip::result::ZipError);

/// A member of an archive: its name, its content, and whether it is stored as
/// it is rather than compressed.
#[verifier::ext_equal]
pub struct Part {
    pub name: Seq<char>,
    pub data: Seq<u8>,
    pub stored: bool,
}

/// The entries of the archive that `bytes` hold, in the order of the central
/// directory, each with what can be read of it; nothing where `bytes` hold no
/// archive.
pub uninterp spec fn entries_of(bytes: Seq<u8>) -> Option<Seq<Option<Part>>>;

/// The entries that an open archive hands out.
pub uninterp spec fn held(a: zip::ZipArchive<std::io::Cursor<Vec<u8>>>) -> Seq<Option<Part>>;

/// The files that a writer was given, in order.
pub uninterp spec fn put_so_far(w: Writer) -> Seq<Part>;

/// No two entries that can be read have one name.
pub open spec fn names_differ(v: Seq<Option<Part>>) -> bool {
    forall|i: int, j: int|
        0 <= i < j < v.len() && (#[trigger] v[i]) is Some && (#[trigger] v[j]) is Some
            ==> v[i]->0.name != v[j]->0.name
}

/// The size of the files and their names, which stand in the archive twice, with a
/// thousand bytes for the headers of each.
pub open spec fn room(v: Seq<Part>) -> int
    decreases v.len(),
{
    if v.len() == 0 {
        0
    } else {
        room(v.drop_last()) + v.last().data.len() + 2 * vstd::utf8::encode_utf8(
            v.last().name,
        ).len() + 1000
    }
}

/// The archive `bytes` of the files `v` is one that is read as it is written. An
/// archive of exactly 65535 files is taken for one with a ZIP64 record, which the
/// writer gives only to larger ones, and so is one whose central directory starts
/// at the largest offset of 32 bits.
pub open spec fn comes_back(v: Seq<Part>, bytes: Seq<u8>) -> bool {
    v.len() != 0xffff && (room(v) <= 0x7fff_ffff || bytes.len() <= 0xffff_ffff)
}

/// What a reading of one entry says.
pub open spec fn part(r: Result<(String, Vec<u8>, bool), zip::result::ZipError>) -> Option<Part> {
    match r {
        Ok((name, data, stored)) => Some(Part { name: name@, data: data@, stored }),
        Err(_) => None,
    }
}

/// Calls `zip::ZipArchive::new`, which reads the central directory. Claimed:
/// whether it succeeds, and which entries it then holds, depends on the bytes
/// alone, and the entries are kept by name, each name once.
#[verifier::external_body]
pub(crate) fn open(bytes: &[u8]) -> (r: Result<
    zip::ZipArchive<std::io::Cursor<Vec<u8>>>,
    zip::result::ZipError,
>)
    ensures
        r is Ok == entries_of(bytes@) is Some,
        r matches Ok(a) ==> entries_of(bytes@) == Some(held(a)) && names_differ(held(a)),
{
    zip::ZipArchive::new(std::io::Cursor::new(bytes.to_vec()))
}

/// Calls `zip::ZipArchive::len`: the number of entries.
#[verifier::external_body]
pub(crate) fn count(a: &zip::ZipArchive<std::io::Cursor<Vec<u8>>>) -> (r: usize)
    ensures
        r == held(*a).len(),
{
    a.len()
}

/// Calls `zip::ZipArchive::by_index` and reads the entry to its end. Claimed:
/// the name, content and storage of the entry at `i`, or the error with which
/// it cannot be read; the archive holds what it held.
#[verifier::external_body]
pub(crate) fn read_at(a: &mut zip::ZipArchive<std::io::Cursor<Vec<u8>>>, i: usize) -> (r: Result<
    (String, Vec<u8>, bool),
    zip::result::ZipError,
>)
    requires
        i < held(*old(a)).len(),
    ensures
        held(*final(a)) == held(*old(a)),
        part(r) == held(*old(a))[i as int],
{
    let mut file = a.by_index(i)?;
    let name = file.name().to_string();
    let stored = file.compression() == zip::CompressionMethod::Stored;
    let mut data = Vec::new();
    std::io::Read::read_to_end(&mut file, &mut data)?;
    Ok((name, data, stored))
}

/// Calls `zip::ZipArchive::by_name`, which looks the name up among the entries
/// and gives the one that `by_index` gives, and reads it to its end. Claimed:
/// nothing where no entry that can be read has the name, and else its content.
#[verifier::external_body]
pub(crate) fn read_named(
    a: &mut zip::ZipArchive<std::io::Cursor<Vec<u8>>>,
    name: &str,
) -> (r: Result<Option<Vec<u8>>, zip::result::ZipError>)
    ensures
        held(*final(a)) == held(*old(a)),
        r matches Ok(None) ==> forall|i: int|
            0 <= i < held(*old(a)).len() ==> match #[trigger] held(*old(a))[i] {
                Some(p) => p.name != name@,
                None => true,
            },
        r matches Ok(Some(data)) ==> exists|i: int|
            0 <= i < held(*old(a)).len() && (match #[trigger] held(*old(a))[i] {
                Some(p) => p.name == name@ && p.data == data@,
                None => false,
            }),
        r is Err ==> exists|i: int|
            0 <= i < held(*old(a)).len() && (#[trigger] held(*old(a))[i]) is None,
{
    let mut file = match a.by_name(name) {
        Ok(file) => file,
        Err(zip::result::ZipError::FileNotFound) => return Ok(None),
        Err(e) => return Err(e),
    };
    let mut data = Vec::new();
    std::io::Read::read_to_end(&mut file, &mut data)?;
    Ok(Some(data))
}

/// Calls `zip::ZipWriter::new` on empty memory: a writer that was given no file.
#[verifier::external_body]
pub(crate) fn writer() -> (r: Writer)
    ensures
        put_so_far(r) == Seq::<Part>::empty(),
{
    Writer { inner: zip::ZipWriter::new(std::io::Cursor::new(Vec::new())) }
}

/// Calls `zip::ZipWriter::start_file` and writes the content. The crate panics
/// on a name of more than 65535 bytes. Claimed: on success the writer was given
/// this file behind the others; and a writer into memory fails for a name that
/// it was given before, or where the archive grows past 2 GiB, and else not.
#[verifier::external_body]
pub(crate) fn put_file(
    w: &mut Writer,
    name: &str,
    data: &[u8],
    stored: bool,
) -> (r: Result<(), zip::result::ZipError>)
    requires
        vstd::utf8::encode_utf8(name@).len() <= 0xffff,
    ensures
        r is Ok ==> put_so_far(*final(w)) == put_so_far(*old(w)).push(
            Part { name: name@, data: data@, stored },
        ),
        (forall|i: int|
            0 <= i < put_so_far(*old(w)).len() ==> (#[trigger] put_so_far(*old(w))[i]).name
                != name@) && room(
            put_so_far(*old(w)).push(Part { name: name@, data: data@, stored }),
        ) <= 0x7fff_ffff ==> r is Ok,
{
    let method = match stored {
        true => zip::CompressionMethod::Stored,
        false => zip::CompressionMethod::Deflated,
    };
    let options = zip::write::SimpleFileOptions::default().compression_method(method);
    w.inner.start_file(name, options)?;
    std::io::Write::write_all(&mut w.inner, data)?;
    Ok(())
}

/// Calls `zip::ZipWriter::finish`, which writes the central directory. Claimed:
/// the archive it gives is read back as the files that the writer was given, in
/// their order, and one of no more than 2 GiB is given. Nothing is claimed of
/// reading an archive of exactly 65535 files, or one that takes more than 4 GiB.
#[verifier::external_body]
pub(crate) fn finish(w: Writer) -> (r: Result<Vec<u8>, zip::result::ZipError>)
    ensures
        r matches Ok(bytes) ==> comes_back(put_so_far(w), bytes@) ==> entries_of(bytes@) == Some(
            put_so_far(w).map_values(|p: Part| Some(p)),
        ),
        room(put_so_far(w)) <= 0x7fff_ffff ==> r is Ok,
{
    Ok(w.inner.finish()?.into_inner())
}

/// Calls `ToString::to_string` on an error of the crate: its message, of which
/// nothing is claimed.
#[verifier::external_body]
pub(crate) fn message(e: &zip::result::ZipError) -> (r: String)
{
    e.to_string()
}

} // verus!
