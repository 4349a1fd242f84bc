//! The archive: opening (header check, version dispatch, eager table
//! parse), building (header, table and data emission for either layout),
//! extraction of one entry's plaintext, and lookup by name.
//!
//! All functions work on in-memory bytes; reading the backing file and
//! writing extracted files is the caller's business.

use vstd::bytes::{spec_u32_from_le_bytes, u32_from_le_bytes, u32_to_le_bytes};
use vstd::prelude::*;
use vstd::slice::slice_subrange;

use crate::cipher::{byte_of, cipher_seq};
use crate::keystream::{advance_magic, lemma_magic_at_add, magic_at, next_magic, next_magic9};
use crate::table::{
    build_legacy, build_legacy_body, build_modern, decode_name_legacy, decode_name_modern,
    encode_name_legacy, encode_name_modern, header_bytes, legacy_fits, modern_data,
    modern_data_len, modern_fits, modern_table, modern_table_len, parse_legacy, parse_modern,
    EntryV, FileV, FIXED_SEED, MODERN_WRITE_SEED,
};
use crate::utf8::is_valid_utf8;

verus! {

/// Why an archive could not be opened, built or searched.
#[derive(Clone, Copy, Debug, PartialEq, Eq, Structural)]
pub enum ArchiveError {
    /// The first six bytes are not the format's magic string.
    InvalidHeader,
    /// The version byte is outside the three known generations.
    InvalidVersion,
    /// The modern layout's table seed is cut off.
    MagicReadFailed,
    /// No entry of the table bears the requested name.
    EntryNotFound,
    /// The input ends inside a name whose length field was read whole.
    Io,
    /// A name length or an accumulated data offset exceeds 32 bits.
    Overflow,
}

/// One entry of a parsed table: decoded name (forward-slash separated),
/// data offset, plaintext size, and the seed its data cipher starts from.
#[derive(Debug)]
pub struct Entry {
    pub name: Vec<u8>,
    pub offset: u32,
    pub size: u32,
    pub magic: u32,
}

impl View for Entry {
    type V = EntryV;

    open spec fn view(&self) -> EntryV {
        EntryV { name: self.name@, offset: self.offset, size: self.size, magic: self.magic }
    }
}

/// One file handed to the builder: archive-relative name and contents.
#[derive(Debug)]
pub struct FileInput {
    pub name: Vec<u8>,
    pub data: Vec<u8>,
}

impl View for FileInput {
    type V = FileV;

    open spec fn view(&self) -> FileV {
        FileV { name: self.name@, data: self.data@ }
    }
}

/// A parsed archive: its fixed version and its table, in table order.
#[derive(Debug)]
pub struct Archive {
    pub version: u8,
    pub entries: Vec<Entry>,
}

pub open spec fn entries_view(es: Seq<Entry>) -> Seq<EntryV> {
    Seq::new(es.len(), |i: int| es[i]@)
}

pub open spec fn files_view(fs: Seq<FileInput>) -> Seq<FileV> {
    Seq::new(fs.len(), |i: int| fs[i]@)
}

/// The six magic bytes of the header are in place.
pub open spec fn header_magic_ok(data: Seq<u8>) -> bool {
    data.len() >= 6 && data[0] == 0x52 && data[1] == 0x47 && data[2] == 0x53 && data[3] == 0x53
        && data[4] == 0x41 && data[5] == 0x44
}

/// Everything `open` returns, for every input: the version byte and the
/// parsed table on success, and which failure ends the attempt otherwise.
/// Too short a header is a read failure; only then are the magic string,
/// the version byte, and (for the modern layout) the table seed judged.
pub open spec fn open_spec(data: Seq<u8>) -> Result<(u8, Seq<EntryV>), ArchiveError> {
    if data.len() < 8 {
        Err(ArchiveError::Io)
    } else if !header_magic_ok(data) {
        Err(ArchiveError::InvalidHeader)
    } else if data[7] == 1 || data[7] == 2 {
        match parse_legacy(data, 8, FIXED_SEED) {
            Ok(es) => Ok((data[7], es)),
            Err(_) => Err(ArchiveError::Io),
        }
    } else if data[7] == 3 {
        if data.len() < 12 {
            Err(ArchiveError::MagicReadFailed)
        } else {
            let tmagic = next_magic9(spec_u32_from_le_bytes(data.subrange(8, 12)));
            match parse_modern(data, 12, tmagic) {
                Ok(es) => Ok((3u8, es)),
                Err(_) => Err(ArchiveError::Io),
            }
        }
    } else {
        Err(ArchiveError::InvalidVersion)
    }
}

/// Decode a legacy name of `nl` bytes at `pos`: one whole generator word
/// consumed per byte, then separator normalization.
fn read_name_legacy(data: &Vec<u8>, pos: usize, nl: usize, magic: &mut u32) -> (name: Vec<u8>)
    requires
        pos + nl <= data@.len(),
    ensures
        name@ == decode_name_legacy(data@.subrange(pos as int, pos + nl as int), *old(magic)),
        *final(magic) == magic_at(*old(magic), nl as nat),
{
    let n = data.len();
    let ghost m1 = *magic;
    let ghost raw_name = data@.subrange(pos as int, pos + nl as int);
    let mut name: Vec<u8> = Vec::new();
    let mut j: usize = 0;
    while j < nl
        invariant
            j <= nl,
            n == data@.len(),
            pos + nl <= n,
            raw_name == data@.subrange(pos as int, pos + nl as int),
            *magic == magic_at(m1, j as nat),
            name@.len() == j,
            forall|t: int| 0 <= t < j ==> name@[t] == decode_name_legacy(raw_name, m1)[t],
        decreases nl - j,
    {
        let w = advance_magic(magic);
        let b = data[pos + j] ^ ((w & 0xff) as u8);
        let c: u8 = if b == 0x5c {
            0x2f
        } else {
            b
        };
        proof {
            assert((w & 0xff) as u8 == ((w >> 0u32) & 0xff) as u8) by (bit_vector);
            assert(byte_of(w, 0) == (w & 0xff) as u8);
            assert(raw_name[j as int] == data@[pos + j]);
            assert(c == decode_name_legacy(raw_name, m1)[j as int]);
        }
        name.push(c);
        j = j + 1;
    }
    proof {
        assert(name@ =~= decode_name_legacy(raw_name, m1));
    }
    name
}

/// What reading one table record, of either layout, yields.
enum TableStep {
    /// An entry, with the position and generator state of the next record.
    Next(Entry, usize, u32),
    /// An entry after which no further whole length field fits.
    Last(Entry),
    /// A quiet end of the table: a short read or an ill-formed name.
    SoftEnd,
    /// The hard failure: the input ends inside the name itself.
    Truncated,
}

/// Read one legacy record at `pos` with the table generator at `magic`.
#[verifier::rlimit(60)]
fn legacy_step(data: &Vec<u8>, pos: usize, magic: u32) -> (r: TableStep)
    requires
        pos + 4 <= data@.len(),
    ensures
        match r {
            TableStep::Next(e, pos2, m2) => {
                &&& pos < pos2
                &&& pos2 + 4 <= data@.len()
                &&& match parse_legacy(data@, pos2 as int, m2) {
                    Ok(rest) => parse_legacy(data@, pos as int, magic) == Ok::<Seq<EntryV>, ()>(
                        seq![e@] + rest,
                    ),
                    Err(x) => parse_legacy(data@, pos as int, magic) == Err::<Seq<EntryV>, ()>(x),
                }
            },
            TableStep::Last(e) => parse_legacy(data@, pos as int, magic) == Ok::<Seq<EntryV>, ()>(
                seq![e@],
            ),
            TableStep::SoftEnd => parse_legacy(data@, pos as int, magic) == Ok::<Seq<EntryV>, ()>(
                Seq::empty(),
            ),
            TableStep::Truncated => parse_legacy(data@, pos as int, magic) == Err::<
                Seq<EntryV>,
                (),
            >(()),
        },
{
    let n = data.len();
    let ghost p = pos as int;
    let mut magic = magic;
    let ghost m0 = magic;
    let raw = u32_from_le_bytes(slice_subrange(data.as_slice(), pos, pos + 4));
    let name_len = raw ^ magic;
    let _ = advance_magic(&mut magic);
    let ghost m1 = magic;
    if (name_len as u64) > ((n - pos - 4) as u64) {
        return TableStep::Truncated;
    }
    let nl = name_len as usize;
    let name = read_name_legacy(data, pos + 4, nl, &mut magic);
    proof {
        assert(magic_at(m0, 0) == m0);
        assert(magic_at(m0, 1) == next_magic(m0));
        lemma_magic_at_add(m0, 1, nl as nat);
        assert(magic == magic_at(m0, (1 + nl) as nat));
    }
    if !is_valid_utf8(&name) {
        return TableStep::SoftEnd;
    }
    if n - (pos + 4 + nl) < 4 {
        return TableStep::SoftEnd;
    }
    let rawsize = u32_from_le_bytes(slice_subrange(data.as_slice(), pos + 4 + nl, pos + 8 + nl));
    let size = rawsize ^ magic;
    let _ = advance_magic(&mut magic);
    let cur = pos + 8 + nl;
    let cur64: u64 = cur as u64;
    let offset: u32 = cur64 as u32;
    proof {
        assert(cur64 as u32 == ((cur64 as int) % 0x1_0000_0000) as u32) by (bit_vector);
    }
    let entry = Entry { name, offset, size, magic };
    if (size as u64) > ((n - cur) as u64) {
        return TableStep::Last(entry);
    }
    let pos2 = cur + size as usize;
    if n - pos2 < 4 {
        TableStep::Last(entry)
    } else {
        TableStep::Next(entry, pos2, magic)
    }
}

/// Parse a legacy table starting right after the header, with the table
/// generator at its fixed seed.
fn parse_table_legacy(data: &Vec<u8>) -> (r: Result<Vec<Entry>, ArchiveError>)
    requires
        data@.len() >= 8,
    ensures
        match r {
            Ok(es) => parse_legacy(data@, 8, FIXED_SEED) == Ok::<Seq<EntryV>, ()>(
                entries_view(es@),
            ),
            Err(e) => e == ArchiveError::Io && parse_legacy(data@, 8, FIXED_SEED) == Err::<
                Seq<EntryV>,
                (),
            >(()),
        },
{
    let n = data.len();
    let mut entries: Vec<Entry> = Vec::new();
    let mut pos: usize = 8;
    let mut magic: u32 = FIXED_SEED;
    proof {
        assert(entries_view(entries@) =~= Seq::<EntryV>::empty());
    }
    loop
        invariant_except_break
            n == data@.len(),
            8 <= pos <= n,
            ({
                let full = parse_legacy(data@, 8, FIXED_SEED);
                match parse_legacy(data@, pos as int, magic) {
                    Ok(rest) => full == Ok::<Seq<EntryV>, ()>(entries_view(entries@) + rest),
                    Err(e) => full == Err::<Seq<EntryV>, ()>(e),
                }
            }),
        ensures
            parse_legacy(data@, 8, FIXED_SEED) == Ok::<Seq<EntryV>, ()>(entries_view(entries@)),
        decreases n - pos,
    {
        if n - pos < 4 {
            proof {
                assert(parse_legacy(data@, pos as int, magic) == Ok::<Seq<EntryV>, ()>(
                    Seq::empty(),
                ));
                assert(entries_view(entries@) + Seq::<EntryV>::empty() =~= entries_view(entries@));
            }
            break ;
        }
        let ghost pre = entries@;
        match legacy_step(data, pos, magic) {
            TableStep::Next(e, pos2, m2) => {
                let ghost ev = e@;
                entries.push(e);
                pos = pos2;
                magic = m2;
                proof {
                    assert(entries_view(entries@) =~= entries_view(pre) + seq![ev]);
                    match parse_legacy(data@, pos as int, magic) {
                        Ok(rest) => {
                            assert(entries_view(pre) + (seq![ev] + rest) =~= entries_view(
                                entries@,
                            ) + rest);
                        },
                        Err(_) => {},
                    }
                }
            },
            TableStep::Last(e) => {
                let ghost ev = e@;
                entries.push(e);
                proof {
                    assert(entries_view(entries@) =~= entries_view(pre) + seq![ev]);
                }
                break ;
            },
            TableStep::SoftEnd => {
                proof {
                    assert(entries_view(entries@) + Seq::<EntryV>::empty() =~= entries_view(
                        entries@,
                    ));
                }
                break ;
            },
            TableStep::Truncated => {
                return Err(ArchiveError::Io);
            },
        }
    }
    Ok(entries)
}

/// Decode a modern name of `nl` bytes at `pos`: each byte XORed with the
/// cycling bytes of the constant table magic, then normalized.
fn read_name_modern(data: &Vec<u8>, pos: usize, nl: usize, magic: u32) -> (name: Vec<u8>)
    requires
        pos + nl <= data@.len(),
    ensures
        name@ == decode_name_modern(data@.subrange(pos as int, pos + nl as int), magic),
{
    let n = data.len();
    let ghost raw_name = data@.subrange(pos as int, pos + nl as int);
    let mut name: Vec<u8> = Vec::new();
    let mut j: usize = 0;
    while j < nl
        invariant
            j <= nl,
            n == data@.len(),
            pos + nl <= n,
            raw_name == data@.subrange(pos as int, pos + nl as int),
            name@.len() == j,
            forall|t: int| 0 <= t < j ==> name@[t] == decode_name_modern(raw_name, magic)[t],
        decreases nl - j,
    {
        let k: u32 = (j % 4) as u32;
        let b = data[pos + j] ^ (((magic >> (8 * k)) & 0xff) as u8);
        let c: u8 = if b == 0x5c {
            0x2f
        } else {
            b
        };
        proof {
            assert((j % 4) as nat == ((j as int) % 4) as nat);
            assert(byte_of(magic, (j % 4) as nat) == ((magic >> (8 * k)) & 0xff) as u8);
            assert(raw_name[j as int] == data@[pos + j]);
            assert(c == decode_name_modern(raw_name, magic)[j as int]);
        }
        name.push(c);
        j = j + 1;
    }
    proof {
        assert(name@ =~= decode_name_modern(raw_name, magic));
    }
    name
}

/// Read one modern record at `pos`, every field XORed with the constant
/// table magic.
#[verifier::rlimit(60)]
fn modern_step(data: &Vec<u8>, pos: usize, magic: u32) -> (r: TableStep)
    requires
        pos + 4 <= data@.len(),
    ensures
        match r {
            TableStep::Next(e, pos2, m2) => {
                &&& pos < pos2
                &&& pos2 + 4 <= data@.len()
                &&& m2 == magic
                &&& match parse_modern(data@, pos2 as int, magic) {
                    Ok(rest) => parse_modern(data@, pos as int, magic) == Ok::<Seq<EntryV>, ()>(
                        seq![e@] + rest,
                    ),
                    Err(x) => parse_modern(data@, pos as int, magic) == Err::<Seq<EntryV>, ()>(x),
                }
            },
            TableStep::Last(e) => parse_modern(data@, pos as int, magic) == Ok::<Seq<EntryV>, ()>(
                seq![e@],
            ),
            TableStep::SoftEnd => parse_modern(data@, pos as int, magic) == Ok::<Seq<EntryV>, ()>(
                Seq::empty(),
            ),
            TableStep::Truncated => parse_modern(data@, pos as int, magic) == Err::<
                Seq<EntryV>,
                (),
            >(()),
        },
{
    let n = data.len();
    let rawoff = u32_from_le_bytes(slice_subrange(data.as_slice(), pos, pos + 4));
    let offset = rawoff ^ magic;
    if offset == 0 {
        return TableStep::SoftEnd;
    }
    if n - pos < 8 {
        return TableStep::SoftEnd;
    }
    let size = u32_from_le_bytes(slice_subrange(data.as_slice(), pos + 4, pos + 8)) ^ magic;
    if n - pos < 12 {
        return TableStep::SoftEnd;
    }
    let entry_magic = u32_from_le_bytes(slice_subrange(data.as_slice(), pos + 8, pos + 12)) ^ magic;
    if n - pos < 16 {
        return TableStep::SoftEnd;
    }
    let name_len = u32_from_le_bytes(slice_subrange(data.as_slice(), pos + 12, pos + 16)) ^ magic;
    if (name_len as u64) > ((n - pos - 16) as u64) {
        return TableStep::Truncated;
    }
    let nl = name_len as usize;
    let name = read_name_modern(data, pos + 16, nl, magic);
    if !is_valid_utf8(&name) {
        return TableStep::SoftEnd;
    }
    let entry = Entry { name, offset, size, magic: entry_magic };
    let pos2 = pos + 16 + nl;
    if n - pos2 < 4 {
        TableStep::Last(entry)
    } else {
        TableStep::Next(entry, pos2, magic)
    }
}

/// Parse a modern table: the plaintext seed right after the header,
/// stepped once by the 9/3 generator, then records against that magic.
fn parse_table_modern(data: &Vec<u8>) -> (r: Result<Vec<Entry>, ArchiveError>)
    requires
        data@.len() >= 12,
    ensures
        ({
            let tmagic = next_magic9(spec_u32_from_le_bytes(data@.subrange(8, 12)));
            match r {
                Ok(es) => parse_modern(data@, 12, tmagic) == Ok::<Seq<EntryV>, ()>(
                    entries_view(es@),
                ),
                Err(e) => e == ArchiveError::Io && parse_modern(data@, 12, tmagic) == Err::<
                    Seq<EntryV>,
                    (),
                >(()),
            }
        }),
{
    let n = data.len();
    let seed = u32_from_le_bytes(slice_subrange(data.as_slice(), 8, 12));
    let magic = seed.wrapping_mul(9).wrapping_add(3);
    proof {
        assert(magic == next_magic9(spec_u32_from_le_bytes(data@.subrange(8, 12))));
    }
    let mut entries: Vec<Entry> = Vec::new();
    let mut pos: usize = 12;
    proof {
        assert(entries_view(entries@) =~= Seq::<EntryV>::empty());
    }
    loop
        invariant_except_break
            n == data@.len(),
            12 <= pos <= n,
            magic == next_magic9(spec_u32_from_le_bytes(data@.subrange(8, 12))),
            ({
                let full = parse_modern(data@, 12, magic);
                match parse_modern(data@, pos as int, magic) {
                    Ok(rest) => full == Ok::<Seq<EntryV>, ()>(entries_view(entries@) + rest),
                    Err(e) => full == Err::<Seq<EntryV>, ()>(e),
                }
            }),
        ensures
            parse_modern(data@, 12, magic) == Ok::<Seq<EntryV>, ()>(entries_view(entries@)),
            magic == next_magic9(spec_u32_from_le_bytes(data@.subrange(8, 12))),
        decreases n - pos,
    {
        if n - pos < 4 {
            proof {
                assert(parse_modern(data@, pos as int, magic) == Ok::<Seq<EntryV>, ()>(
                    Seq::empty(),
                ));
                assert(entries_view(entries@) + Seq::<EntryV>::empty() =~= entries_view(entries@));
            }
            break ;
        }
        let ghost pre = entries@;
        match modern_step(data, pos, magic) {
            TableStep::Next(e, pos2, _m2) => {
                let ghost ev = e@;
                entries.push(e);
                pos = pos2;
                proof {
                    assert(entries_view(entries@) =~= entries_view(pre) + seq![ev]);
                    match parse_modern(data@, pos as int, magic) {
                        Ok(rest) => {
                            assert(entries_view(pre) + (seq![ev] + rest) =~= entries_view(
                                entries@,
                            ) + rest);
                        },
                        Err(_) => {},
                    }
                }
            },
            TableStep::Last(e) => {
                let ghost ev = e@;
                entries.push(e);
                proof {
                    assert(entries_view(entries@) =~= entries_view(pre) + seq![ev]);
                }
                break ;
            },
            TableStep::SoftEnd => {
                proof {
                    assert(entries_view(entries@) + Seq::<EntryV>::empty() =~= entries_view(
                        entries@,
                    ));
                }
                break ;
            },
            TableStep::Truncated => {
                return Err(ArchiveError::Io);
            },
        }
    }
    Ok(entries)
}

impl Archive {
    /// Open an archive: check the six magic bytes, dispatch on the
    /// version byte, and parse the whole table eagerly. [`open_spec`]
    /// pins down the result for every input.
    pub fn open(data: &Vec<u8>) -> (r: Result<Archive, ArchiveError>)
        ensures
            match r {
                Ok(a) => open_spec(data@) == Ok::<(u8, Seq<EntryV>), ArchiveError>(
                    (a.version, entries_view(a.entries@)),
                ),
                Err(e) => open_spec(data@) == Err::<(u8, Seq<EntryV>), ArchiveError>(e),
            },
    {
        let n = data.len();
        if n < 8 {
            return Err(ArchiveError::Io);
        }
        if !(data[0] == 0x52 && data[1] == 0x47 && data[2] == 0x53 && data[3] == 0x53 && data[4]
            == 0x41 && data[5] == 0x44) {
            return Err(ArchiveError::InvalidHeader);
        }
        let version = data[7];
        if version == 1 || version == 2 {
            match parse_table_legacy(data) {
                Ok(entries) => Ok(Archive { version, entries }),
                Err(e) => Err(e),
            }
        } else if version == 3 {
            if n < 12 {
                return Err(ArchiveError::MagicReadFailed);
            }
            match parse_table_modern(data) {
                Ok(entries) => Ok(Archive { version, entries }),
                Err(e) => Err(e),
            }
        } else {
            Err(ArchiveError::InvalidVersion)
        }
    }
}

/// The bytes of `data` that belong to entry `e`: from its offset, `size`
/// of them, both bounds clipped to the end of the input. A truncated
/// archive yields only what is there, never bytes of a neighbour.
pub open spec fn extract_region(data: Seq<u8>, e: EntryV) -> Seq<u8> {
    let start = if e.offset <= data.len() {
        e.offset as int
    } else {
        data.len() as int
    };
    let end = if e.offset + e.size <= data.len() {
        e.offset + e.size
    } else {
        data.len() as int
    };
    data.subrange(start, end)
}

/// The plaintext of one entry: its clipped data region deciphered from
/// its seed. An entry of size zero yields nothing at all.
pub fn extract_entry(data: &Vec<u8>, entry: &Entry) -> (out: Vec<u8>)
    ensures
        out@ == cipher_seq(extract_region(data@, entry@), entry.magic, 0),
        entry.size == 0 ==> out@ == Seq::<u8>::empty(),
{
    let n = data.len();
    let off = entry.offset as usize;
    let start = if off <= n {
        off
    } else {
        n
    };
    let avail: usize = if off >= n {
        0
    } else if (entry.size as u64) <= ((n - off) as u64) {
        entry.size as usize
    } else {
        n - off
    };
    let mut out: Vec<u8> = Vec::new();
    let mut j: usize = 0;
    while j < avail
        invariant
            j <= avail,
            n == data@.len(),
            start + avail <= n,
            start == if entry@.offset <= data@.len() { entry@.offset as int } else { data@.len() as int },
            out@ =~= data@.subrange(start as int, start + j as int),
        decreases avail - j,
    {
        out.push(data[start + j]);
        proof {
            assert(out@ =~= data@.subrange(start as int, start + j + 1));
        }
        j = j + 1;
    }
    proof {
        assert(out@ =~= extract_region(data@, entry@));
    }
    crate::cipher::cipher_data(&mut out, entry.magic);
    proof {
        if entry@.size == 0 {
            assert(out@ =~= Seq::<u8>::empty());
        }
    }
    out
}

/// Whether two byte strings hold the same bytes.
fn bytes_eq(a: &Vec<u8>, b: &Vec<u8>) -> (r: bool)
    ensures
        r == (a@ == b@),
{
    if a.len() != b.len() {
        return false;
    }
    let n = a.len();
    let mut j: usize = 0;
    while j < n
        invariant
            j <= n,
            n == a@.len() == b@.len(),
            forall|t: int| 0 <= t < j ==> a@[t] == b@[t],
        decreases n - j,
    {
        if a[j] != b[j] {
            return false;
        }
        j = j + 1;
    }
    proof {
        assert(a@ =~= b@);
    }
    true
}

impl Archive {
    /// Index of the entry bearing `name`. The format does not forbid a
    /// name occurring twice; as in a map built by insertion, the later
    /// entry wins.
    pub fn find_entry(&self, name: &Vec<u8>) -> (r: Result<usize, ArchiveError>)
        ensures
            match r {
                Ok(i) => {
                    &&& i < self.entries@.len()
                    &&& self.entries@[i as int]@.name == name@
                    &&& forall|j: int|
                        i < j < self.entries@.len() ==> self.entries@[j]@.name != name@
                },
                Err(e) => {
                    &&& e == ArchiveError::EntryNotFound
                    &&& forall|j: int|
                        0 <= j < self.entries@.len() ==> self.entries@[j]@.name != name@
                },
            },
    {
        let n = self.entries.len();
        let mut i: usize = n;
        while i > 0
            invariant
                i <= n,
                n == self.entries@.len(),
                forall|j: int| i <= j < n ==> self.entries@[j]@.name != name@,
            decreases i,
        {
            i = i - 1;
            if bytes_eq(&self.entries[i].name, name) {
                return Ok(i);
            }
        }
        Err(ArchiveError::EntryNotFound)
    }
}

/// Append the eight header bytes for `version`.
fn write_header(out: &mut Vec<u8>, version: u8)
    ensures
        final(out)@ == old(out)@ + header_bytes(version),
{
    let ghost orig = out@;
    out.push(0x52);
    out.push(0x47);
    out.push(0x53);
    out.push(0x53);
    out.push(0x41);
    out.push(0x44);
    out.push(0x00);
    out.push(version);
    proof {
        assert(out@ =~= orig + header_bytes(version));
    }
}

/// Append one little-endian word.
fn write_u32(out: &mut Vec<u8>, w: u32)
    ensures
        final(out)@ == old(out)@ + vstd::bytes::spec_u32_to_le_bytes(w),
{
    let mut bytes = u32_to_le_bytes(w);
    out.append(&mut bytes);
}

/// Append a legacy-enciphered name: separators to backslashes, then one
/// whole generator word consumed per byte.
fn write_name_legacy(out: &mut Vec<u8>, name: &Vec<u8>, magic: &mut u32)
    ensures
        final(out)@ == old(out)@ + encode_name_legacy(name@, *old(magic)),
        *final(magic) == magic_at(*old(magic), name@.len()),
{
    let ghost orig = out@;
    let ghost m1 = *magic;
    let n = name.len();
    let mut j: usize = 0;
    while j < n
        invariant
            j <= n,
            n == name@.len(),
            *magic == magic_at(m1, j as nat),
            out@ == orig + encode_name_legacy(name@, m1).take(j as int),
        decreases n - j,
    {
        let w = advance_magic(magic);
        let b0 = name[j];
        let b: u8 = if b0 == 0x2f {
            0x5c
        } else {
            b0
        };
        let c = b ^ ((w & 0xff) as u8);
        proof {
            assert((w & 0xff) as u8 == ((w >> 0u32) & 0xff) as u8) by (bit_vector);
            assert(byte_of(w, 0) == (w & 0xff) as u8);
            assert(c == encode_name_legacy(name@, m1)[j as int]);
            assert(encode_name_legacy(name@, m1).take(j + 1) =~= encode_name_legacy(
                name@,
                m1,
            ).take(j as int).push(c));
        }
        out.push(c);
        j = j + 1;
    }
    proof {
        assert(encode_name_legacy(name@, m1).take(n as int) =~= encode_name_legacy(name@, m1));
    }
}

/// Append a modern-enciphered name: separators to backslashes, then the
/// cycling bytes of the constant table magic.
fn write_name_modern(out: &mut Vec<u8>, name: &Vec<u8>, magic: u32)
    ensures
        final(out)@ == old(out)@ + encode_name_modern(name@, magic),
{
    let ghost orig = out@;
    let n = name.len();
    let mut j: usize = 0;
    while j < n
        invariant
            j <= n,
            n == name@.len(),
            out@ == orig + encode_name_modern(name@, magic).take(j as int),
        decreases n - j,
    {
        let k: u32 = (j % 4) as u32;
        let b0 = name[j];
        let b: u8 = if b0 == 0x2f {
            0x5c
        } else {
            b0
        };
        let c = b ^ (((magic >> (8 * k)) & 0xff) as u8);
        proof {
            assert((j % 4) as nat == ((j as int) % 4) as nat);
            assert(byte_of(magic, (j % 4) as nat) == ((magic >> (8 * k)) & 0xff) as u8);
            assert(c == encode_name_modern(name@, magic)[j as int]);
            assert(encode_name_modern(name@, magic).take(j + 1) =~= encode_name_modern(
                name@,
                magic,
            ).take(j as int).push(c));
        }
        out.push(c);
        j = j + 1;
    }
    proof {
        assert(encode_name_modern(name@, magic).take(n as int) =~= encode_name_modern(name@, magic));
    }
}

/// Copy a byte string.
fn copy_bytes(src: &Vec<u8>) -> (out: Vec<u8>)
    ensures
        out@ == src@,
{
    let out = vstd::slice::slice_to_vec(src.as_slice());
    out
}

/// Build a legacy archive: the header, then each entry's record followed
/// at once by its enciphered data, the table generator threading through
/// all records and forking into each data region.
#[verifier::rlimit(60)]
fn build_legacy_archive(version: u8, files: &Vec<FileInput>) -> (r: Result<Vec<u8>, ArchiveError>)
    ensures
        match r {
            Ok(out) => legacy_fits(files_view(files@)) && out@ == build_legacy(
                version,
                files_view(files@),
            ),
            Err(e) => e == ArchiveError::Overflow && !legacy_fits(files_view(files@)),
        },
{
    let ghost fv = files_view(files@);
    let mut out: Vec<u8> = Vec::new();
    write_header(&mut out, version);
    proof {
        assert(Seq::<u8>::empty() + header_bytes(version) =~= header_bytes(version));
        assert(fv.skip(0) =~= fv);
    }
    let mut magic: u32 = FIXED_SEED;
    let n = files.len();
    let mut i: usize = 0;
    while i < n
        invariant
            i <= n,
            n == files@.len(),
            fv == files_view(files@),
            forall|t: int| 0 <= t < i ==> crate::table::file_fits_u32(#[trigger] fv[t]),
            header_bytes(version) + build_legacy_body(fv, FIXED_SEED) == out@
                + build_legacy_body(fv.skip(i as int), magic),
        decreases n - i,
    {
        let ghost m0 = magic;
        let ghost tail = fv.skip(i as int);
        let f = &files[i];
        proof {
            assert(tail[0] == fv[i as int]);
            assert(fv[i as int] == f@);
            assert(tail.skip(1) =~= fv.skip(i + 1));
        }
        if (f.name.len() as u64) > 0xffff_ffffu64 || (f.data.len() as u64) > 0xffff_ffffu64 {
            proof {
                assert(!crate::table::file_fits_u32(fv[i as int]));
            }
            return Err(ArchiveError::Overflow);
        }
        let nl32: u32 = f.name.len() as u32;
        write_u32(&mut out, nl32 ^ magic);
        let _ = advance_magic(&mut magic);
        write_name_legacy(&mut out, &f.name, &mut magic);
        proof {
            assert(magic_at(m0, 0) == m0);
            assert(magic_at(m0, 1) == next_magic(m0));
            lemma_magic_at_add(m0, 1, f.name@.len());
            assert(magic == magic_at(m0, (1 + f.name@.len()) as nat));
        }
        let sz32: u32 = f.data.len() as u32;
        write_u32(&mut out, sz32 ^ magic);
        let _ = advance_magic(&mut magic);
        let mut buf = copy_bytes(&f.data);
        crate::cipher::cipher_data(&mut buf, magic);
        out.append(&mut buf);
        proof {
            let enc = vstd::bytes::spec_u32_to_le_bytes(nl32 ^ m0) + encode_name_legacy(
                f.name@,
                magic_at(m0, 1),
            ) + vstd::bytes::spec_u32_to_le_bytes(sz32 ^ magic_at(m0, (1 + f.name@.len()) as nat))
                + cipher_seq(f.data@, magic, 0);
            assert(build_legacy_body(tail, m0) =~= enc + build_legacy_body(fv.skip(i + 1), magic));
            assert(header_bytes(version) + build_legacy_body(fv, FIXED_SEED) =~= out@
                + build_legacy_body(fv.skip(i + 1), magic));
        }
        i = i + 1;
    }
    proof {
        assert(fv.skip(n as int) =~= Seq::<FileV>::empty());
        assert(build_legacy_body(fv.skip(n as int), magic) =~= Seq::<u8>::empty());
        assert(out@ =~= build_legacy(version, fv));
        assert(legacy_fits(fv));
    }
    Ok(out)
}

/// Build a modern archive: the whole table region's size is computed
/// first, since every record carries the absolute offset of its data;
/// then header, seed, records, terminator and data regions are emitted.
#[verifier::rlimit(80)]
fn build_modern_archive(files: &Vec<FileInput>) -> (r: Result<Vec<u8>, ArchiveError>)
    ensures
        match r {
            Ok(out) => modern_fits(files_view(files@)) && out@ == build_modern(files_view(files@)),
            Err(e) => e == ArchiveError::Overflow && !modern_fits(files_view(files@)),
        },
{
    let ghost fv = files_view(files@);
    let n = files.len();
    proof {
        assert(fv.skip(0) =~= fv);
    }
    // First pass: the table region's length, each record 16 bytes plus its name.
    let mut off: u32 = 12;
    let mut i: usize = 0;
    while i < n
        invariant
            i <= n,
            n == files@.len(),
            fv == files_view(files@),
            12 <= off,
            modern_table_len(fv) == (off - 12) + modern_table_len(fv.skip(i as int)),
        decreases n - i,
    {
        let ghost tail = fv.skip(i as int);
        let f = &files[i];
        proof {
            assert(tail[0] == fv[i as int]);
            assert(fv[i as int] == f@);
            assert(tail.skip(1) =~= fv.skip(i + 1));
            crate::table::lemma_modern_table_len_nonneg(fv.skip(i + 1));
            crate::table::lemma_modern_data_len_nonneg(fv);
        }
        if (f.name.len() as u64) > 0xffff_ffffu64 {
            return Err(ArchiveError::Overflow);
        }
        let sum: u64 = (off as u64) + 16 + (f.name.len() as u64);
        if sum > 0xffff_ffffu64 {
            return Err(ArchiveError::Overflow);
        }
        off = sum as u32;
        i = i + 1;
    }
    proof {
        assert(fv.skip(n as int) =~= Seq::<FileV>::empty());
        assert(modern_table_len(fv) == off - 12);
        crate::table::lemma_modern_data_len_nonneg(fv);
    }
    if (off as u64) + 4 > 0xffff_ffffu64 {
        return Err(ArchiveError::Overflow);
    }
    let table_end: u32 = off + 4;
    // Second pass: the data offsets, which accumulate from the table's end.
    let mut off2: u32 = table_end;
    i = 0;
    while i < n
        invariant
            i <= n,
            n == files@.len(),
            fv == files_view(files@),
            table_end as int == 12 + modern_table_len(fv) + 4,
            off2 >= table_end,
            modern_data_len(fv) == (off2 - table_end) + modern_data_len(fv.skip(i as int)),
        decreases n - i,
    {
        let ghost tail = fv.skip(i as int);
        let f = &files[i];
        proof {
            assert(tail[0] == fv[i as int]);
            assert(fv[i as int] == f@);
            assert(tail.skip(1) =~= fv.skip(i + 1));
            crate::table::lemma_modern_data_len_nonneg(fv.skip(i + 1));
        }
        if (f.data.len() as u64) > 0xffff_ffffu64 {
            return Err(ArchiveError::Overflow);
        }
        let sum: u64 = (off2 as u64) + (f.data.len() as u64);
        if sum > 0xffff_ffffu64 {
            return Err(ArchiveError::Overflow);
        }
        off2 = sum as u32;
        i = i + 1;
    }
    proof {
        assert(fv.skip(n as int) =~= Seq::<FileV>::empty());
        assert(modern_fits(fv));
    }
    // Third pass: emit everything.
    let mut out: Vec<u8> = Vec::new();
    write_header(&mut out, 3);
    write_u32(&mut out, MODERN_WRITE_SEED);
    let seed: u32 = MODERN_WRITE_SEED;
    let tmagic = seed.wrapping_mul(9).wrapping_add(3);
    proof {
        assert(tmagic == next_magic9(MODERN_WRITE_SEED));
    }
    let ghost prefix = header_bytes(3) + vstd::bytes::spec_u32_to_le_bytes(MODERN_WRITE_SEED);
    let ghost te = 12 + modern_table_len(fv) + 4;
    proof {
        assert(out@ =~= prefix);
        assert(prefix + modern_table(fv, te, tmagic) =~= out@ + modern_table(
            fv.skip(0),
            table_end as int,
            tmagic,
        ));
    }
    let mut off3: u32 = table_end;
    i = 0;
    while i < n
        invariant
            i <= n,
            n == files@.len(),
            fv == files_view(files@),
            tmagic == next_magic9(MODERN_WRITE_SEED),
            te == 12 + modern_table_len(fv) + 4 == table_end as int,
            off3 >= table_end,
            modern_data_len(fv) == (off3 - table_end) + modern_data_len(fv.skip(i as int)),
            12 + modern_table_len(fv) + 4 + modern_data_len(fv) <= u32::MAX,
            prefix + modern_table(fv, te, tmagic) == out@ + modern_table(
                fv.skip(i as int),
                off3 as int,
                tmagic,
            ),
        decreases n - i,
    {
        let ghost tail = fv.skip(i as int);
        let f = &files[i];
        proof {
            assert(tail[0] == fv[i as int]);
            assert(fv[i as int] == f@);
            assert(tail.skip(1) =~= fv.skip(i + 1));
            crate::table::lemma_modern_data_len_nonneg(fv.skip(i + 1));
            crate::table::lemma_modern_table_len_split(fv, i as int);
            crate::table::lemma_modern_table_len_nonneg(fv.take(i as int));
            crate::table::lemma_modern_table_len_nonneg(fv.skip(i + 1));
        }
        let sz32: u32 = f.data.len() as u32;
        let nl32: u32 = f.name.len() as u32;
        write_u32(&mut out, off3 ^ tmagic);
        write_u32(&mut out, sz32 ^ tmagic);
        write_u32(&mut out, FIXED_SEED ^ tmagic);
        write_u32(&mut out, nl32 ^ tmagic);
        write_name_modern(&mut out, &f.name, tmagic);
        proof {
            assert((off3 as int) as u32 == off3);
            assert(modern_table(tail, off3 as int, tmagic) =~= crate::table::modern_record(
                f@,
                off3,
                tmagic,
            ) + modern_table(fv.skip(i + 1), off3 as int + f.data@.len(), tmagic));
            assert(prefix + modern_table(fv, te, tmagic) =~= out@ + modern_table(
                fv.skip(i + 1),
                off3 as int + f.data@.len(),
                tmagic,
            ));
        }
        off3 = off3 + sz32;
        i = i + 1;
    }
    proof {
        assert(fv.skip(n as int) =~= Seq::<FileV>::empty());
        assert(modern_table(fv.skip(n as int), off3 as int, tmagic) =~= Seq::<u8>::empty());
        assert(out@ =~= prefix + modern_table(fv, te, tmagic));
    }
    write_u32(&mut out, 0u32 ^ tmagic);
    let ghost prefix2 = prefix + modern_table(fv, te, tmagic) + vstd::bytes::spec_u32_to_le_bytes(
        0u32 ^ tmagic,
    );
    proof {
        assert(out@ =~= prefix2);
        assert(prefix2 + modern_data(fv) =~= out@ + modern_data(fv.skip(0)));
    }
    i = 0;
    while i < n
        invariant
            i <= n,
            n == files@.len(),
            fv == files_view(files@),
            prefix2 + modern_data(fv) == out@ + modern_data(fv.skip(i as int)),
        decreases n - i,
    {
        let ghost tail = fv.skip(i as int);
        let f = &files[i];
        proof {
            assert(tail[0] == fv[i as int]);
            assert(fv[i as int] == f@);
            assert(tail.skip(1) =~= fv.skip(i + 1));
        }
        let mut buf = copy_bytes(&f.data);
        crate::cipher::cipher_data(&mut buf, FIXED_SEED);
        out.append(&mut buf);
        proof {
            assert(modern_data(tail) =~= cipher_seq(f.data@, FIXED_SEED, 0) + modern_data(
                fv.skip(i + 1),
            ));
            assert(prefix2 + modern_data(fv) =~= out@ + modern_data(fv.skip(i + 1)));
        }
        i = i + 1;
    }
    proof {
        assert(fv.skip(n as int) =~= Seq::<FileV>::empty());
        assert(modern_data(fv.skip(n as int)) =~= Seq::<u8>::empty());
        assert(out@ =~= prefix2 + modern_data(fv));
        assert(out@ =~= build_modern(fv));
    }
    Ok(out)
}

/// Build a whole archive of the given version from the files' names and
/// contents, in order. The version must be one of the three known
/// generations, and every length the chosen layout writes must fit its
/// 32-bit field; either failure leaves nothing behind.
pub fn build_archive(version: u8, files: &Vec<FileInput>) -> (r: Result<Vec<u8>, ArchiveError>)
    ensures
        match r {
            Ok(out) => {
                &&& 1 <= version <= 3
                &&& if version == 3 {
                    modern_fits(files_view(files@)) && out@ == build_modern(files_view(files@))
                } else {
                    legacy_fits(files_view(files@)) && out@ == build_legacy(
                        version,
                        files_view(files@),
                    )
                }
            },
            Err(e) => {
                if !(1 <= version <= 3) {
                    e == ArchiveError::InvalidVersion
                } else if version == 3 {
                    e == ArchiveError::Overflow && !modern_fits(files_view(files@))
                } else {
                    e == ArchiveError::Overflow && !legacy_fits(files_view(files@))
                }
            },
        },
{
    if version < 1 || version > 3 {
        return Err(ArchiveError::InvalidVersion);
    }
    if version == 3 {
        build_modern_archive(files)
    } else {
        build_legacy_archive(version, files)
    }
}

} // verus!
