//! A stored (uncompressed) ZIP archive writer, used to hand several exported
//! files to a browser as one download, and the CRC-32 checksum it needs.
use vstd::prelude::*;
use crate::bytes::{le16, le32, push_bytes, push_le16, push_le32};

verus! {

/// One step of the reflected CRC-32 shift register (polynomial `0xEDB88320`).
pub open spec fn crc_shift(crc: u32) -> u32 {
    if crc & 1 == 1 {
        (crc >> 1u32) ^ 0xedb8_8320u32
    } else {
        crc >> 1u32
    }
}

/// `k` shift steps.
pub open spec fn crc_shifts(crc: u32, k: nat) -> u32
    decreases k,
{
    if k == 0 {
        crc
    } else {
        crc_shift(crc_shifts(crc, (k - 1) as nat))
    }
}

/// The register after the bytes of `data` have been fed in.
pub open spec fn crc_register(data: Seq<u8>) -> u32
    decreases data.len(),
{
    if data.len() == 0 {
        0xffff_ffffu32
    } else {
        crc_shifts(crc_register(data.drop_last()) ^ (data.last() as u32), 8)
    }
}

/// The CRC-32 checksum (as in ZIP, PNG and gzip) of `data`.
pub open spec fn crc32_spec(data: Seq<u8>) -> u32 {
    !crc_register(data)
}

/// The CRC-32 checksum of `data`.
pub fn crc32(data: &[u8]) -> (c: u32)
    ensures
        c == crc32_spec(data@),
{
    let mut crc: u32 = 0xffff_ffff;
    let mut i: usize = 0;
    while i < data.len()
        invariant
            i <= data.len(),
            crc == crc_register(data@.take(i as int)),
        decreases data.len() - i,
    {
        assert(data@.take(i + 1).drop_last() == data@.take(i as int));
        assert(data@.take(i + 1).last() == data@[i as int]);
        crc = crc ^ (data[i] as u32);
        let ghost start = crc;
        let mut k: u32 = 0;
        while k < 8
            invariant
                k <= 8,
                crc == crc_shifts(start, k as nat),
            decreases 8 - k,
        {
            crc = if crc & 1 == 1 {
                (crc >> 1) ^ 0xedb8_8320
            } else {
                crc >> 1
            };
            k += 1;
        }
        i += 1;
    }
    assert(data@.take(data.len() as int) == data@);
    !crc
}

/// The local file header and data of a stored entry.
pub open spec fn local_record(name: Seq<u8>, data: Seq<u8>) -> Seq<u8> {
    le32(0x04034b50) + le16(20) + le16(0x0800) + le16(0) + le16(0) + le16(0) + le32(
        crc32_spec(data) as int,
    ) + le32(data.len() as int) + le32(data.len() as int) + le16(name.len() as int) + le16(0)
        + name + data
}

/// The central directory record of a stored entry whose local header starts at `offset`.
pub open spec fn central_record(name: Seq<u8>, data: Seq<u8>, offset: int) -> Seq<u8> {
    le32(0x02014b50) + le16(20) + le16(20) + le16(0x0800) + le16(0) + le16(0) + le16(0) + le32(
        crc32_spec(data) as int,
    ) + le32(data.len() as int) + le32(data.len() as int) + le16(name.len() as int) + le16(0)
        + le16(0) + le16(0) + le16(0) + le32(0) + le32(offset) + name
}

/// The local section and central directory of the entries, or why they cannot
/// be stored.
pub open spec fn zip_sections(entries: Seq<(Seq<u8>, Seq<u8>)>) -> Result<
    (Seq<u8>, Seq<u8>),
    Seq<char>,
>
    decreases entries.len(),
{
    if entries.len() == 0 {
        Ok((Seq::empty(), Seq::empty()))
    } else {
        match zip_sections(entries.drop_last()) {
            Err(e) => Err(e),
            Ok((archive, central)) => {
                let (name, data) = entries.last();
                if archive.len() > u32::MAX {
                    Err("ZIP is too large"@)
                } else if data.len() > u32::MAX {
                    Err("ZIP entry is too large"@)
                } else if name.len() > u16::MAX {
                    Err("ZIP name is too long"@)
                } else {
                    Ok(
                        (
                            archive + local_record(name, data),
                            central + central_record(name, data, archive.len() as int),
                        ),
                    )
                }
            },
        }
    }
}

/// The end of central directory record.
pub open spec fn end_record(count: int, central_size: int, central_offset: int) -> Seq<u8> {
    le32(0x06054b50) + le16(0) + le16(0) + le16(count) + le16(count) + le32(central_size) + le32(
        central_offset,
    ) + le16(0)
}

/// A stored ZIP archive of the entries, or why it cannot be written.
pub open spec fn stored_zip_spec(entries: Seq<(Seq<u8>, Seq<u8>)>) -> Result<Seq<u8>, Seq<char>> {
    match zip_sections(entries) {
        Err(e) => Err(e),
        Ok((archive, central)) => {
            if archive.len() > u32::MAX || central.len() > u32::MAX {
                Err("ZIP is too large"@)
            } else if entries.len() > u16::MAX {
                Err("Too many ZIP entries"@)
            } else {
                Ok(
                    archive + central + end_record(
                        entries.len() as int,
                        central.len() as int,
                        archive.len() as int,
                    ),
                )
            }
        },
    }
}

/// The UTF-8 bytes of the entry names, with the entry data.
pub open spec fn entry_bytes(entries: Seq<(String, Vec<u8>)>) -> Seq<(Seq<u8>, Seq<u8>)> {
    Seq::new(
        entries.len(),
        |i: int| (vstd::utf8::encode_utf8(entries[i].0@), entries[i].1@),
    )
}

proof fn lemma_zip_sections_failure(entries: Seq<(Seq<u8>, Seq<u8>)>, n: int)
    requires
        0 <= n <= entries.len(),
        zip_sections(entries.take(n)) is Err,
    ensures
        zip_sections(entries) == zip_sections(entries.take(n)),
    decreases entries.len() - n,
{
    if n < entries.len() {
        assert(entries.take(n + 1).drop_last() == entries.take(n));
        lemma_zip_sections_failure(entries, n + 1);
    } else {
        assert(entries.take(n) == entries);
    }
}

fn push_local_record(archive: &mut Vec<u8>, name: &[u8], data: &[u8], checksum: u32)
    requires
        name@.len() <= u16::MAX,
        data@.len() <= u32::MAX,
        checksum == crc32_spec(data@),
    ensures
        final(archive)@ == old(archive)@ + local_record(name@, data@),
{
    push_le32(archive, 0x04034b50);
    push_le16(archive, 20);
    push_le16(archive, 0x0800);
    push_le16(archive, 0);
    push_le16(archive, 0);
    push_le16(archive, 0);
    push_le32(archive, checksum);
    push_le32(archive, data.len() as u32);
    push_le32(archive, data.len() as u32);
    push_le16(archive, name.len() as u16);
    push_le16(archive, 0);
    push_bytes(archive, name);
    push_bytes(archive, data);
}

fn push_central_record(central: &mut Vec<u8>, name: &[u8], data: &[u8], checksum: u32, offset: u32)
    requires
        name@.len() <= u16::MAX,
        data@.len() <= u32::MAX,
        checksum == crc32_spec(data@),
    ensures
        final(central)@ == old(central)@ + central_record(name@, data@, offset as int),
{
    push_le32(central, 0x02014b50);
    push_le16(central, 20);
    push_le16(central, 20);
    push_le16(central, 0x0800);
    push_le16(central, 0);
    push_le16(central, 0);
    push_le16(central, 0);
    push_le32(central, checksum);
    push_le32(central, data.len() as u32);
    push_le32(central, data.len() as u32);
    push_le16(central, name.len() as u16);
    push_le16(central, 0);
    push_le16(central, 0);
    push_le16(central, 0);
    push_le16(central, 0);
    push_le32(central, 0);
    push_le32(central, offset);
    push_bytes(central, name);
}

fn push_end_record(archive: &mut Vec<u8>, count: u16, central_size: u32, central_offset: u32)
    ensures
        final(archive)@ == old(archive)@ + end_record(count as int, central_size as int, central_offset as int),
{
    push_le32(archive, 0x06054b50);
    push_le16(archive, 0);
    push_le16(archive, 0);
    push_le16(archive, count);
    push_le16(archive, count);
    push_le32(archive, central_size);
    push_le32(archive, central_offset);
    push_le16(archive, 0);
}

/// Writes a stored ZIP archive holding each named file uncompressed.
pub fn build_stored_zip(entries: &[(String, Vec<u8>)]) -> (r: Result<Vec<u8>, String>)
    ensures
        r matches Ok(b) ==> stored_zip_spec(entry_bytes(entries@)) == Ok::<Seq<u8>, Seq<char>>(b@),
        r matches Err(e) ==> stored_zip_spec(entry_bytes(entries@)) == Err::<Seq<u8>, Seq<char>>(
            e@,
        ),
{
    let ghost all = entry_bytes(entries@);
    let mut archive: Vec<u8> = Vec::new();
    let mut central: Vec<u8> = Vec::new();
    let mut i: usize = 0;
    assert(all.take(0) == Seq::<(Seq<u8>, Seq<u8>)>::empty());
    while i < entries.len()
        invariant
            i <= entries.len(),
            all == entry_bytes(entries@),
            zip_sections(all.take(i as int)) == Ok::<(Seq<u8>, Seq<u8>), Seq<char>>(
                (archive@, central@),
            ),
        decreases entries.len() - i,
    {
        let name = entries[i].0.as_str().as_bytes();
        let data = &entries[i].1;
        assert(all.take(i + 1).drop_last() == all.take(i as int));
        assert(all.take(i + 1).last() == all[i as int]);
        assert(all[i as int] == (name@, data@));
        if archive.len() > 0xffff_ffff {
            proof {
                lemma_zip_sections_failure(all, i + 1);
            }
            return Err("ZIP is too large".to_owned());
        }
        let offset = archive.len() as u32;
        if data.len() > 0xffff_ffff {
            proof {
                lemma_zip_sections_failure(all, i + 1);
            }
            return Err("ZIP entry is too large".to_owned());
        }
        let size = data.len() as u32;
        let checksum = crc32(data);
        if name.len() > 0xffff {
            proof {
                lemma_zip_sections_failure(all, i + 1);
            }
            return Err("ZIP name is too long".to_owned());
        }
        let ghost a0 = archive@;
        push_local_record(&mut archive, name, data, checksum);
        push_central_record(&mut central, name, data, checksum, offset);
        i += 1;
    }
    assert(all.take(entries.len() as int) == all);
    if archive.len() > 0xffff_ffff {
        return Err("ZIP is too large".to_owned());
    }
    let central_offset = archive.len() as u32;
    if central.len() > 0xffff_ffff {
        return Err("ZIP is too large".to_owned());
    }
    let central_size = central.len() as u32;
    if entries.len() > 0xffff {
        return Err("Too many ZIP entries".to_owned());
    }
    let count = entries.len() as u16;
    let ghost a1 = archive@;
    push_bytes(&mut archive, &central);
    push_end_record(&mut archive, count, central_size, central_offset);
    assert(archive@ == a1 + central@ + end_record(
        count as int,
        central_size as int,
        central_offset as int,
    ));
    Ok(archive)
}

} // verus!
