//! The entry table codec, as mathematics: byte-exact descriptions of the
//! two generational layouts, used as the contracts of the executable
//! parser and builder in [`crate::archive`].
//!
//! Legacy layout (versions 1 and 2): records `(name_len, name, size)` are
//! interleaved with each entry's data; every 32-bit field consumes one
//! word of an advancing table generator seeded with a fixed constant, and
//! every name byte consumes a whole word of its own. There is no
//! terminator: the table ends at the first failed field read.
//!
//! Modern layout (version 3): a plaintext seed follows the header and is
//! stepped once by the 9/3 generator into a table-wide magic; records
//! `(offset, size, entry_magic, name_len, name)` are all XORed against
//! that one constant word (names against its bytes, cycling), and a
//! record whose decoded offset is zero terminates the table.

use vstd::bytes::{spec_u32_from_le_bytes, spec_u32_to_le_bytes};
use vstd::prelude::*;

use crate::cipher::{byte_of, cipher_seq};
use crate::keystream::{magic_at, next_magic, next_magic9};
use crate::utf8::is_utf8;

verus! {

/// Table generator seed of the legacy layout, and per-entry data seed
/// the builder assigns in the modern layout.
pub const FIXED_SEED: u32 = 0xdead_cafe;

/// Seed written in front of the modern table by the builder.
pub const MODERN_WRITE_SEED: u32 = 0;

/// Ghost form of one parsed entry: its name as decoded bytes, the byte
/// offset of its data within the archive, the plaintext length of that
/// data, and the generator seed its cipher starts from.
#[verifier::ext_equal]
pub ghost struct EntryV {
    pub name: Seq<u8>,
    pub offset: u32,
    pub size: u32,
    pub magic: u32,
}

/// Ghost form of one file handed to the builder: archive-relative name
/// and plaintext contents.
#[verifier::ext_equal]
pub ghost struct FileV {
    pub name: Seq<u8>,
    pub data: Seq<u8>,
}

/// The eight header bytes: the magic string, a null, the version byte.
pub open spec fn header_bytes(version: u8) -> Seq<u8> {
    seq![0x52u8, 0x47u8, 0x53u8, 0x53u8, 0x41u8, 0x44u8, 0x00u8, version]
}

/// Path normalization on decode: a backslash becomes a forward slash.
pub open spec fn norm_slash(b: u8) -> u8 {
    if b == 0x5c {
        0x2f
    } else {
        b
    }
}

/// Path denormalization on encode: a forward slash becomes a backslash.
pub open spec fn to_backslash(b: u8) -> u8 {
    if b == 0x2f {
        0x5c
    } else {
        b
    }
}

/// A whole name normalized byte by byte.
pub open spec fn normalize_name(s: Seq<u8>) -> Seq<u8> {
    Seq::new(s.len(), |i: int| norm_slash(s[i]))
}

/// Legacy name decode: byte `i` is XORed with the low byte of the `i`-th
/// word of an advancing generator (one whole word per byte, a quirk of
/// the format), then normalized.
pub open spec fn decode_name_legacy(raw: Seq<u8>, magic: u32) -> Seq<u8> {
    Seq::new(raw.len(), |i: int| norm_slash(raw[i] ^ byte_of(magic_at(magic, i as nat), 0)))
}

/// Legacy name encode: separators turned to backslashes, then the same
/// per-byte keystream as the decode.
pub open spec fn encode_name_legacy(name: Seq<u8>, magic: u32) -> Seq<u8> {
    Seq::new(name.len(), |i: int| to_backslash(name[i]) ^ byte_of(magic_at(magic, i as nat), 0))
}

/// Modern name decode: byte `i` is XORed with byte `i % 4` of the
/// constant table magic (the same word cycling, no advancing generator),
/// then normalized.
pub open spec fn decode_name_modern(raw: Seq<u8>, magic: u32) -> Seq<u8> {
    Seq::new(raw.len(), |i: int| norm_slash(raw[i] ^ byte_of(magic, (i % 4) as nat)))
}

/// Modern name encode: separators to backslashes, then the cycling mask.
pub open spec fn encode_name_modern(name: Seq<u8>, magic: u32) -> Seq<u8> {
    Seq::new(name.len(), |i: int| to_backslash(name[i]) ^ byte_of(magic, (i % 4) as nat))
}

/// The entries of a legacy table read from byte `pos` of `data` with the
/// table generator at `magic`. `Err` is the one hard failure: a name cut
/// off after its length field was read whole. Every other shortfall ends
/// the table quietly, keeping the entries parsed so far.
pub open spec fn parse_legacy(data: Seq<u8>, pos: int, magic: u32) -> Result<Seq<EntryV>, ()>
    decreases data.len() - pos,
{
    if pos < 0 || pos + 4 > data.len() {
        Ok(Seq::empty())
    } else {
        let name_len = (spec_u32_from_le_bytes(data.subrange(pos, pos + 4)) ^ magic) as int;
        let m1 = next_magic(magic);
        if pos + 4 + name_len > data.len() {
            Err(())
        } else {
            let name = decode_name_legacy(data.subrange(pos + 4, pos + 4 + name_len), m1);
            if !is_utf8(name) {
                Ok(Seq::empty())
            } else if pos + 8 + name_len > data.len() {
                Ok(Seq::empty())
            } else {
                let m2 = magic_at(magic, (1 + name_len) as nat);
                let size = spec_u32_from_le_bytes(
                    data.subrange(pos + 4 + name_len, pos + 8 + name_len),
                ) ^ m2;
                let m3 = next_magic(m2);
                let entry = EntryV {
                    name,
                    offset: ((pos + 8 + name_len) % 0x1_0000_0000) as u32,
                    size,
                    magic: m3,
                };
                let pos2 = pos + 8 + name_len + size as int;
                if pos2 + 4 > data.len() {
                    Ok(seq![entry])
                } else {
                    match parse_legacy(data, pos2, m3) {
                        Ok(rest) => Ok(seq![entry] + rest),
                        Err(e) => Err(e),
                    }
                }
            }
        }
    }
}

/// The entries of a modern table read from byte `pos` of `data`, every
/// field XORed against the constant table magic. A decoded offset of
/// zero, a failed field read, or an ill-formed name ends the table
/// quietly; only a name cut off mid-way is a hard failure.
pub open spec fn parse_modern(data: Seq<u8>, pos: int, magic: u32) -> Result<Seq<EntryV>, ()>
    decreases data.len() - pos,
{
    if pos < 0 || pos + 4 > data.len() {
        Ok(Seq::empty())
    } else {
        let offset = spec_u32_from_le_bytes(data.subrange(pos, pos + 4)) ^ magic;
        if offset == 0 {
            Ok(Seq::empty())
        } else if pos + 8 > data.len() {
            Ok(Seq::empty())
        } else {
            let size = spec_u32_from_le_bytes(data.subrange(pos + 4, pos + 8)) ^ magic;
            if pos + 12 > data.len() {
                Ok(Seq::empty())
            } else {
                let entry_magic = spec_u32_from_le_bytes(data.subrange(pos + 8, pos + 12)) ^ magic;
                if pos + 16 > data.len() {
                    Ok(Seq::empty())
                } else {
                    let name_len = (spec_u32_from_le_bytes(data.subrange(pos + 12, pos + 16))
                        ^ magic) as int;
                    if pos + 16 + name_len > data.len() {
                        Err(())
                    } else {
                        let name = decode_name_modern(
                            data.subrange(pos + 16, pos + 16 + name_len),
                            magic,
                        );
                        if !is_utf8(name) {
                            Ok(Seq::empty())
                        } else {
                            let entry = EntryV { name, offset, size, magic: entry_magic };
                            let pos2 = pos + 16 + name_len;
                            if pos2 + 4 > data.len() {
                                Ok(seq![entry])
                            } else {
                                match parse_modern(data, pos2, magic) {
                                    Ok(rest) => Ok(seq![entry] + rest),
                                    Err(e) => Err(e),
                                }
                            }
                        }
                    }
                }
            }
        }
    }
}

/// Every field of every file fits a 32-bit length, the only limit the
/// legacy writer has (its interleaved layout needs no total size).
pub open spec fn file_fits_u32(f: FileV) -> bool {
    f.name.len() <= u32::MAX && f.data.len() <= u32::MAX
}

pub open spec fn legacy_fits(files: Seq<FileV>) -> bool {
    forall|i: int| 0 <= i < files.len() ==> file_fits_u32(#[trigger] files[i])
}

/// One legacy record and its enciphered data, with the table generator
/// entering at `magic`; the data cipher forks off the generator state
/// reached after the size field, which is also where the next record
/// resumes.
pub open spec fn build_legacy_body(files: Seq<FileV>, magic: u32) -> Seq<u8>
    decreases files.len(),
{
    if files.len() == 0 {
        Seq::empty()
    } else {
        let f = files[0];
        let m1 = next_magic(magic);
        let m2 = magic_at(magic, (1 + f.name.len()) as nat);
        let m3 = next_magic(m2);
        spec_u32_to_le_bytes((f.name.len() as u32) ^ magic) + encode_name_legacy(f.name, m1)
            + spec_u32_to_le_bytes((f.data.len() as u32) ^ m2) + cipher_seq(f.data, m3, 0)
            + build_legacy_body(files.skip(1), m3)
    }
}

/// A whole legacy archive: header, then interleaved records and data.
pub open spec fn build_legacy(version: u8, files: Seq<FileV>) -> Seq<u8> {
    header_bytes(version) + build_legacy_body(files, FIXED_SEED)
}

/// Byte length of the modern table's records (16 fixed bytes plus the
/// name, per entry), excluding header, seed and terminator.
pub open spec fn modern_table_len(files: Seq<FileV>) -> int
    decreases files.len(),
{
    if files.len() == 0 {
        0
    } else {
        16 + files[0].name.len() + modern_table_len(files.skip(1))
    }
}

/// Total byte length of the files' data regions.
pub open spec fn modern_data_len(files: Seq<FileV>) -> int
    decreases files.len(),
{
    if files.len() == 0 {
        0
    } else {
        files[0].data.len() + modern_data_len(files.skip(1))
    }
}

/// The modern writer must know every data offset up front; all of them,
/// through the end of the last data region, must fit in 32 bits.
pub open spec fn modern_fits(files: Seq<FileV>) -> bool {
    12 + modern_table_len(files) + 4 + modern_data_len(files) <= u32::MAX
}

/// One modern record, data at `off`, fields XORed with the table magic.
pub open spec fn modern_record(f: FileV, off: u32, tmagic: u32) -> Seq<u8> {
    spec_u32_to_le_bytes(off ^ tmagic) + spec_u32_to_le_bytes((f.data.len() as u32) ^ tmagic)
        + spec_u32_to_le_bytes(FIXED_SEED ^ tmagic) + spec_u32_to_le_bytes(
        (f.name.len() as u32) ^ tmagic,
    ) + encode_name_modern(f.name, tmagic)
}

/// The modern table region: records in order, data offsets accumulating
/// from `off`, the offset of the first entry's data.
pub open spec fn modern_table(files: Seq<FileV>, off: int, tmagic: u32) -> Seq<u8>
    decreases files.len(),
{
    if files.len() == 0 {
        Seq::empty()
    } else {
        modern_record(files[0], off as u32, tmagic) + modern_table(
            files.skip(1),
            off + files[0].data.len(),
            tmagic,
        )
    }
}

/// The modern data region: every file ciphered from the builder's fixed
/// per-entry seed, in table order.
pub open spec fn modern_data(files: Seq<FileV>) -> Seq<u8>
    decreases files.len(),
{
    if files.len() == 0 {
        Seq::empty()
    } else {
        cipher_seq(files[0].data, FIXED_SEED, 0) + modern_data(files.skip(1))
    }
}

/// A whole modern archive: header, plaintext seed, table, a terminator
/// word that deciphers to offset zero, then the data regions.
pub open spec fn build_modern(files: Seq<FileV>) -> Seq<u8> {
    let tmagic = next_magic9(MODERN_WRITE_SEED);
    header_bytes(3) + spec_u32_to_le_bytes(MODERN_WRITE_SEED) + modern_table(
        files,
        12 + modern_table_len(files) + 4,
        tmagic,
    ) + spec_u32_to_le_bytes(0u32 ^ tmagic) + modern_data(files)
}

/// Decoding an encoded legacy name recovers it with every separator,
/// whichever way it was written, normalized to a forward slash.
pub proof fn lemma_name_round_trip_legacy(name: Seq<u8>, magic: u32)
    ensures
        decode_name_legacy(encode_name_legacy(name, magic), magic) == normalize_name(name),
{
    let enc = encode_name_legacy(name, magic);
    assert forall|i: int| 0 <= i < name.len() implies decode_name_legacy(enc, magic)[i]
        == normalize_name(name)[i] by {
        let k = byte_of(magic_at(magic, i as nat), 0);
        let x = name[i];
        assert(((if x == 0x2f {
            0x5cu8
        } else {
            x
        }) ^ k) ^ k == (if x == 0x2f {
            0x5cu8
        } else {
            x
        })) by (bit_vector);
        assert(norm_slash(to_backslash(x)) == norm_slash(x));
    }
    assert(decode_name_legacy(enc, magic) =~= normalize_name(name));
}

/// The same round trip for the modern cycling name mask.
pub proof fn lemma_name_round_trip_modern(name: Seq<u8>, magic: u32)
    ensures
        decode_name_modern(encode_name_modern(name, magic), magic) == normalize_name(name),
{
    let enc = encode_name_modern(name, magic);
    assert forall|i: int| 0 <= i < name.len() implies decode_name_modern(enc, magic)[i]
        == normalize_name(name)[i] by {
        let k = byte_of(magic, (i % 4) as nat);
        let x = name[i];
        assert(((if x == 0x2f {
            0x5cu8
        } else {
            x
        }) ^ k) ^ k == (if x == 0x2f {
            0x5cu8
        } else {
            x
        })) by (bit_vector);
        assert(norm_slash(to_backslash(x)) == norm_slash(x));
    }
    assert(decode_name_modern(enc, magic) =~= normalize_name(name));
}

/// Record overhead never makes the table length negative.
pub proof fn lemma_modern_table_len_nonneg(files: Seq<FileV>)
    ensures
        modern_table_len(files) >= 0,
    decreases files.len(),
{
    if files.len() > 0 {
        lemma_modern_table_len_nonneg(files.skip(1));
    }
}

/// A sum of data lengths is never negative.
pub proof fn lemma_modern_data_len_nonneg(files: Seq<FileV>)
    ensures
        modern_data_len(files) >= 0,
    decreases files.len(),
{
    if files.len() > 0 {
        lemma_modern_data_len_nonneg(files.skip(1));
    }
}

/// Splitting the list splits the table length.
pub proof fn lemma_modern_table_len_split(files: Seq<FileV>, i: int)
    requires
        0 <= i <= files.len(),
    ensures
        modern_table_len(files) == modern_table_len(files.take(i)) + modern_table_len(
            files.skip(i),
        ),
    decreases i,
{
    if i == 0 {
        assert(files.take(0) =~= Seq::<FileV>::empty());
        assert(files.skip(0) =~= files);
    } else {
        let rest = files.skip(1);
        lemma_modern_table_len_split(rest, i - 1);
        assert(files.take(i)[0] == files[0]);
        assert(files.take(i).skip(1) =~= rest.take(i - 1));
        assert(rest.skip(i - 1) =~= files.skip(i));
    }
}

/// Splitting the list splits the data length.
pub proof fn lemma_modern_data_len_split(files: Seq<FileV>, i: int)
    requires
        0 <= i <= files.len(),
    ensures
        modern_data_len(files) == modern_data_len(files.take(i)) + modern_data_len(files.skip(i)),
    decreases i,
{
    if i == 0 {
        assert(files.take(0) =~= Seq::<FileV>::empty());
        assert(files.skip(0) =~= files);
    } else {
        let rest = files.skip(1);
        lemma_modern_data_len_split(rest, i - 1);
        assert(files.take(i)[0] == files[0]);
        assert(files.take(i).skip(1) =~= rest.take(i - 1));
        assert(rest.skip(i - 1) =~= files.skip(i));
    }
}

} // verus!
