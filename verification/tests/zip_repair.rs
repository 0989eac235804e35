use std::io::Cursor;

use bokai::zip_repair::{neutralize_spurious_zip64, ru16};

const SIG_LOCAL: u32 = 0x0403_4b50;
const SIG_CENTRAL: u32 = 0x0201_4b50;
const SIG_EOCD: u32 = 0x0605_4b50;
const SIG_ZIP64_EOCD: u32 = 0x0606_4b50;
const SIG_ZIP64_LOCATOR: u32 = 0x0706_4b50;
const ZIP64_ID: u16 = 0x0001;
const SENTINEL32: u32 = 0xFFFF_FFFF;


/// Append a 24-byte spurious ZIP64 field (id 0x0001) whose third u64 — the
/// relative-header-offset slot the `zip` crate wrongly trusts — is garbage.
fn push_spurious_zip64(buf: &mut Vec<u8>) {
    buf.extend_from_slice(&ZIP64_ID.to_le_bytes());
    buf.extend_from_slice(&24u16.to_le_bytes());
    buf.extend_from_slice(&1u64.to_le_bytes()); // uncompressed (ignored)
    buf.extend_from_slice(&1u64.to_le_bytes()); // compressed (ignored)
    buf.extend_from_slice(&0xDEAD_BEEFu64.to_le_bytes()); // bogus offset
}

/// A one-entry archive that mirrors the real-world defect: a stored file
/// with a spurious ZIP64 field in both headers, addressed through a ZIP64
/// EOCD while the classic EOCD is all sentinels.
fn craft_malformed_zip() -> Vec<u8> {
    let name = b"m";
    let content = b"Z";
    let mut buf = Vec::new();

    // Local header at offset 0.
    buf.extend_from_slice(&SIG_LOCAL.to_le_bytes());
    buf.extend_from_slice(&20u16.to_le_bytes()); // version needed
    buf.extend_from_slice(&0u16.to_le_bytes()); // flags
    buf.extend_from_slice(&0u16.to_le_bytes()); // method: stored
    buf.extend_from_slice(&0u32.to_le_bytes()); // mod time+date
    buf.extend_from_slice(&0u32.to_le_bytes()); // crc (unread)
    buf.extend_from_slice(&1u32.to_le_bytes()); // compressed
    buf.extend_from_slice(&1u32.to_le_bytes()); // uncompressed
    buf.extend_from_slice(&(name.len() as u16).to_le_bytes());
    buf.extend_from_slice(&28u16.to_le_bytes()); // extra len (4 + 24)
    buf.extend_from_slice(name);
    push_spurious_zip64(&mut buf);
    buf.extend_from_slice(content);

    // Central directory.
    let cd_offset = buf.len() as u32;
    buf.extend_from_slice(&SIG_CENTRAL.to_le_bytes());
    buf.extend_from_slice(&20u16.to_le_bytes()); // version made
    buf.extend_from_slice(&20u16.to_le_bytes()); // version needed
    buf.extend_from_slice(&0u16.to_le_bytes()); // flags
    buf.extend_from_slice(&0u16.to_le_bytes()); // method
    buf.extend_from_slice(&0u32.to_le_bytes()); // mod time+date
    buf.extend_from_slice(&0u32.to_le_bytes()); // crc
    buf.extend_from_slice(&1u32.to_le_bytes()); // compressed
    buf.extend_from_slice(&1u32.to_le_bytes()); // uncompressed
    buf.extend_from_slice(&(name.len() as u16).to_le_bytes());
    buf.extend_from_slice(&28u16.to_le_bytes()); // extra len
    buf.extend_from_slice(&0u16.to_le_bytes()); // comment len
    buf.extend_from_slice(&0u16.to_le_bytes()); // disk start
    buf.extend_from_slice(&0u16.to_le_bytes()); // internal attrs
    buf.extend_from_slice(&0u32.to_le_bytes()); // external attrs
    buf.extend_from_slice(&0u32.to_le_bytes()); // local header offset
    buf.extend_from_slice(name);
    push_spurious_zip64(&mut buf);
    let cd_size = buf.len() as u32 - cd_offset;

    // ZIP64 EOCD record.
    let z64_off = buf.len() as u64;
    buf.extend_from_slice(&SIG_ZIP64_EOCD.to_le_bytes());
    buf.extend_from_slice(&44u64.to_le_bytes()); // record size - 12
    buf.extend_from_slice(&45u16.to_le_bytes()); // version made
    buf.extend_from_slice(&45u16.to_le_bytes()); // version needed
    buf.extend_from_slice(&0u32.to_le_bytes()); // this disk
    buf.extend_from_slice(&0u32.to_le_bytes()); // cd start disk
    buf.extend_from_slice(&1u64.to_le_bytes()); // entries this disk
    buf.extend_from_slice(&1u64.to_le_bytes()); // entries total
    buf.extend_from_slice(&(cd_size as u64).to_le_bytes());
    buf.extend_from_slice(&(cd_offset as u64).to_le_bytes());

    // ZIP64 EOCD locator.
    buf.extend_from_slice(&SIG_ZIP64_LOCATOR.to_le_bytes());
    buf.extend_from_slice(&0u32.to_le_bytes()); // disk with zip64 eocd
    buf.extend_from_slice(&z64_off.to_le_bytes());
    buf.extend_from_slice(&1u32.to_le_bytes()); // total disks

    // Classic EOCD, all sentinels (defers to the ZIP64 EOCD).
    buf.extend_from_slice(&SIG_EOCD.to_le_bytes());
    buf.extend_from_slice(&0u16.to_le_bytes()); // this disk
    buf.extend_from_slice(&0u16.to_le_bytes()); // cd start disk
    buf.extend_from_slice(&0xFFFFu16.to_le_bytes()); // entries this disk
    buf.extend_from_slice(&0xFFFFu16.to_le_bytes()); // entries total
    buf.extend_from_slice(&SENTINEL32.to_le_bytes()); // cd size
    buf.extend_from_slice(&SENTINEL32.to_le_bytes()); // cd offset
    buf.extend_from_slice(&0u16.to_le_bytes()); // comment len
    buf
}

/// Whether the stock `zip` reader can resolve the first entry's local
/// header (the exact step that fails on the malformed input).
fn first_entry_resolves(bytes: &[u8]) -> bool {
    match zip::ZipArchive::new(Cursor::new(bytes.to_vec())) {
        Ok(mut a) => a.by_index(0).is_ok(),
        Err(_) => false,
    }
}


#[test]
fn repairs_spurious_zip64_for_the_zip_crate() {
    let bad = craft_malformed_zip();
    assert!(
        !first_entry_resolves(&bad),
        "stock reader should choke on the bogus per-entry ZIP64 fields"
    );

    let fixed = neutralize_spurious_zip64(&bad).expect("should repair");
    assert_eq!(fixed.len(), bad.len(), "repair must be offset-preserving");
    assert!(
        first_entry_resolves(&fixed),
        "the repaired archive must read cleanly"
    );
}

#[test]
fn repair_is_idempotent_and_clean_input_is_a_noop() {
    let bad = craft_malformed_zip();
    let fixed = neutralize_spurious_zip64(&bad).expect("first pass repairs");
    // No ZIP64 ids remain, so a second pass finds nothing to do.
    assert!(
        neutralize_spurious_zip64(&fixed).is_none(),
        "a clean archive must not be rewritten"
    );
}

#[test]
fn preserves_a_genuine_zip64_field() {
    // Same archive, but mark the local header's compressed size as the
    // sentinel so the local ZIP64 field is legitimately required. Its id
    // must survive; the central field (still spurious) is relabeled.
    let mut bad = craft_malformed_zip();
    // Local header compressed-size field is at offset 18.
    bad[18..22].copy_from_slice(&SENTINEL32.to_le_bytes());

    let fixed = neutralize_spurious_zip64(&bad).expect("central field still spurious");
    // The local header's ZIP64 id (right after the 1-byte name at offset
    // 30) is preserved.
    let local_extra_id = ru16(&fixed, 30 + 1);
    assert_eq!(local_extra_id, ZIP64_ID, "a real ZIP64 field must be kept");
}

#[test]
fn non_zip_input_is_ignored() {
    assert!(neutralize_spurious_zip64(b"").is_none());
    assert!(neutralize_spurious_zip64(b"not a zip at all").is_none());
}
