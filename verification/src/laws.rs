//! Round-trip laws tying the builder to the parser: an archive built
//! from any list of files opens to exactly one entry per file — names
//! normalized, sizes exact, in order — and each entry's data region
//! deciphers back to the file's contents.

use vstd::bytes::{lemma_auto_spec_u32_to_from_le_bytes, spec_u32_to_le_bytes};
use vstd::prelude::*;

use crate::archive::{extract_region, header_magic_ok, open_spec, ArchiveError};
use crate::cipher::{cipher_seq, lemma_cipher_self_inverse};
use crate::keystream::{magic_at, next_magic, next_magic9};
use crate::table::{
    build_legacy, build_legacy_body, build_modern, encode_name_legacy, encode_name_modern,
    header_bytes, legacy_fits, lemma_name_round_trip_legacy, parse_legacy, lemma_modern_data_len_nonneg,
    lemma_modern_data_len_split, lemma_modern_table_len_nonneg, lemma_modern_table_len_split,
    lemma_name_round_trip_modern, modern_data, modern_data_len, modern_fits, modern_record,
    modern_table, modern_table_len, normalize_name, parse_modern, EntryV, FileV, FIXED_SEED,
    MODERN_WRITE_SEED,
};
use crate::utf8::is_utf8;

verus! {

/// The records of `files` occupy exactly `modern_table_len(files)` bytes.
proof fn lemma_modern_table_bytes_len(files: Seq<FileV>, off: int, tmagic: u32)
    ensures
        modern_table(files, off, tmagic).len() == modern_table_len(files),
    decreases files.len(),
{
    lemma_auto_spec_u32_to_from_le_bytes();
    if files.len() > 0 {
        lemma_modern_table_bytes_len(files.skip(1), off + files[0].data.len(), tmagic);
    }
}

/// The data regions of `files` occupy exactly `modern_data_len(files)` bytes.
proof fn lemma_modern_data_bytes_len(files: Seq<FileV>)
    ensures
        modern_data(files).len() == modern_data_len(files),
    decreases files.len(),
{
    if files.len() > 0 {
        lemma_modern_data_bytes_len(files.skip(1));
    }
}

/// Splitting the list splits the table bytes; the later records' offsets
/// are shifted by the earlier files' data.
proof fn lemma_modern_table_split(files: Seq<FileV>, i: int, off: int, tmagic: u32)
    requires
        0 <= i <= files.len(),
    ensures
        modern_table(files, off, tmagic) == modern_table(files.take(i), off, tmagic)
            + modern_table(files.skip(i), off + modern_data_len(files.take(i)), tmagic),
    decreases i,
{
    if i == 0 {
        assert(files.take(0) =~= Seq::<FileV>::empty());
        assert(files.skip(0) =~= files);
        assert(modern_table(files, off, tmagic) =~= modern_table(files.take(0), off, tmagic)
            + modern_table(files.skip(0), off + modern_data_len(files.take(0)), tmagic));
    } else {
        let rest = files.skip(1);
        lemma_modern_table_split(rest, i - 1, off + files[0].data.len(), tmagic);
        assert(files.take(i)[0] == files[0]);
        assert(files.take(i).skip(1) =~= rest.take(i - 1));
        assert(rest.skip(i - 1) =~= files.skip(i));
        assert(modern_table(files, off, tmagic) =~= modern_table(files.take(i), off, tmagic)
            + modern_table(files.skip(i), off + modern_data_len(files.take(i)), tmagic));
    }
}

/// Splitting the list splits the data bytes.
proof fn lemma_modern_data_split(files: Seq<FileV>, i: int)
    requires
        0 <= i <= files.len(),
    ensures
        modern_data(files) == modern_data(files.take(i)) + modern_data(files.skip(i)),
    decreases i,
{
    if i == 0 {
        assert(files.take(0) =~= Seq::<FileV>::empty());
        assert(files.skip(0) =~= files);
        assert(modern_data(files) =~= modern_data(files.take(0)) + modern_data(files.skip(0)));
    } else {
        let rest = files.skip(1);
        lemma_modern_data_split(rest, i - 1);
        assert(files.take(i)[0] == files[0]);
        assert(files.take(i).skip(1) =~= rest.take(i - 1));
        assert(rest.skip(i - 1) =~= files.skip(i));
        assert(modern_data(files) =~= modern_data(files.take(i)) + modern_data(files.skip(i)));
    }
}

/// The entry the modern layout records for file `i` of `files`: its name
/// normalized, its data right after the table plus all earlier files'
/// data, its exact size, and the builder's fixed per-entry seed.
pub open spec fn modern_entry_of(files: Seq<FileV>, i: int) -> EntryV {
    EntryV {
        name: normalize_name(files[i].name),
        offset: (12 + modern_table_len(files) + 4 + modern_data_len(files.take(i))) as u32,
        size: files[i].data.len() as u32,
        magic: FIXED_SEED,
    }
}

pub open spec fn modern_entries_of(files: Seq<FileV>) -> Seq<EntryV> {
    Seq::new(files.len(), |i: int| modern_entry_of(files, i))
}

/// Every name, once normalized, is well-formed UTF-8, so no name makes
/// the parser stop early.
pub open spec fn names_well_formed(files: Seq<FileV>) -> bool {
    forall|i: int| 0 <= i < files.len() ==> is_utf8(normalize_name(#[trigger] files[i].name))
}

/// Parsing a built modern archive from the start of record `i` yields
/// exactly the entries of the files from `i` on; from the table's end,
/// the terminator stops the parse with nothing.
#[verifier::rlimit(100)]
proof fn lemma_modern_parse_from(all: Seq<FileV>, i: int)
    requires
        modern_fits(all),
        names_well_formed(all),
        0 <= i <= all.len(),
    ensures
        parse_modern(
            build_modern(all),
            12 + modern_table_len(all.take(i)),
            next_magic9(MODERN_WRITE_SEED),
        ) == Ok::<Seq<EntryV>, ()>(Seq::new((all.len() - i) as nat, |j: int| modern_entry_of(all, i + j))),
    decreases all.len() - i,
{
    lemma_auto_spec_u32_to_from_le_bytes();
    let tm = next_magic9(MODERN_WRITE_SEED);
    let data = build_modern(all);
    let mtl = modern_table_len(all);
    let mdl = modern_data_len(all);
    let te = 12 + mtl + 4;
    let h = header_bytes(3);
    let sd = spec_u32_to_le_bytes(MODERN_WRITE_SEED);
    let tbl = modern_table(all, te, tm);
    let term = spec_u32_to_le_bytes(0u32 ^ tm);
    let dreg = modern_data(all);
    assert(data == h + sd + tbl + term + dreg);
    lemma_modern_table_bytes_len(all, te, tm);
    lemma_modern_data_bytes_len(all);
    assert(data.len() == 16 + mtl + mdl);
    lemma_modern_table_split(all, i, te, tm);
    lemma_modern_table_len_split(all, i);
    lemma_modern_data_len_split(all, i);
    lemma_modern_table_len_nonneg(all.take(i));
    lemma_modern_table_len_nonneg(all.skip(i));
    lemma_modern_data_len_nonneg(all.take(i));
    lemma_modern_data_len_nonneg(all.skip(i));
    lemma_modern_table_bytes_len(all.take(i), te, tm);
    let off_i = te + modern_data_len(all.take(i));
    let tbl_b = modern_table(all.skip(i), off_i, tm);
    lemma_modern_table_bytes_len(all.skip(i), off_i, tm);
    let pos = 12 + modern_table_len(all.take(i));
    if i == all.len() {
        assert(all.take(i) =~= all);
        assert(all.skip(i) =~= Seq::<FileV>::empty());
        assert(pos == 12 + mtl);
        assert(data.subrange(pos, pos + 4) =~= term);
        assert(((0u32 ^ tm) ^ tm) == 0) by (bit_vector);
        assert(parse_modern(data, pos, tm) == Ok::<Seq<EntryV>, ()>(Seq::empty()));
        assert(Seq::new((all.len() - i) as nat, |j: int| modern_entry_of(all, i + j)) =~= Seq::<
            EntryV,
        >::empty());
    } else {
        let tail = all.skip(i);
        let f = all[i];
        assert(tail[0] == f);
        assert(tail.skip(1) =~= all.skip(i + 1));
        let nl = f.name.len() as int;
        let sz = f.data.len() as int;
        lemma_modern_table_len_nonneg(all.skip(i + 1));
        lemma_modern_data_len_nonneg(all.skip(i + 1));
        assert(modern_table_len(tail) == 16 + nl + modern_table_len(all.skip(i + 1)));
        assert(modern_data_len(tail) == sz + modern_data_len(all.skip(i + 1)));
        assert(16 + nl <= modern_table_len(tail));
        assert(off_i + sz <= te + mdl);
        let rest2 = modern_table(all.skip(i + 1), off_i + sz, tm);
        let fa = spec_u32_to_le_bytes((off_i as u32) ^ tm);
        let fb = spec_u32_to_le_bytes((sz as u32) ^ tm);
        let fc = spec_u32_to_le_bytes(FIXED_SEED ^ tm);
        let fd = spec_u32_to_le_bytes((nl as u32) ^ tm);
        let fe = encode_name_modern(f.name, tm);
        assert(tbl_b == (fa + fb + fc + fd + fe) + rest2);
        assert(fe.len() == nl);
        // the five pieces of the record, read back out of the archive
        assert(data.subrange(pos, pos + 4) =~= fa);
        assert(data.subrange(pos + 4, pos + 8) =~= fb);
        assert(data.subrange(pos + 8, pos + 12) =~= fc);
        assert(data.subrange(pos + 12, pos + 16) =~= fd);
        assert(data.subrange(pos + 16, pos + 16 + nl) =~= fe);
        // each field deciphers to what the builder put in
        let offw = (off_i as u32);
        let szw = (sz as u32);
        let nlw = (nl as u32);
        assert((offw ^ tm) ^ tm == offw) by (bit_vector);
        assert((szw ^ tm) ^ tm == szw) by (bit_vector);
        assert((FIXED_SEED ^ tm) ^ tm == FIXED_SEED) by (bit_vector);
        assert((nlw ^ tm) ^ tm == nlw) by (bit_vector);
        assert(16 <= off_i <= u32::MAX);
        assert(offw != 0);
        assert(nlw as int == nl);
        // the name deciphers to its normalized form, which is well formed
        lemma_name_round_trip_modern(f.name, tm);
        assert(is_utf8(normalize_name(f.name)));
        // the next record starts where this one ends
        lemma_modern_table_len_split(all, i + 1);
        assert(modern_table_len(all.take(i + 1)) == modern_table_len(all.take(i)) + 16 + nl);
        lemma_modern_data_len_split(all, i + 1);
        assert(modern_data_len(all.take(i + 1)) == modern_data_len(all.take(i)) + sz);
        let pos2 = pos + 16 + nl;
        assert(pos2 + 4 <= data.len());
        lemma_modern_parse_from(all, i + 1);
        let entry = EntryV { name: normalize_name(f.name), offset: offw, size: szw, magic: FIXED_SEED };
        assert(entry == modern_entry_of(all, i));
        let suffix1 = Seq::new((all.len() - (i + 1)) as nat, |j: int| modern_entry_of(all, i + 1 + j));
        assert(parse_modern(data, pos2, tm) == Ok::<Seq<EntryV>, ()>(suffix1));
        assert(parse_modern(data, pos, tm) == Ok::<Seq<EntryV>, ()>(seq![entry] + suffix1));
        assert(seq![entry] + suffix1 =~= Seq::new(
            (all.len() - i) as nat,
            |j: int| modern_entry_of(all, i + j),
        ));
    }
}

/// Modern round trip: an archive built from any files opens as a modern
/// archive with exactly one entry per file, names normalized, sizes
/// exact, in table order.
pub proof fn lemma_modern_round_trip(files: Seq<FileV>)
    requires
        modern_fits(files),
        names_well_formed(files),
    ensures
        open_spec(build_modern(files)) == Ok::<(u8, Seq<EntryV>), ArchiveError>(
            (3u8, modern_entries_of(files)),
        ),
{
    lemma_auto_spec_u32_to_from_le_bytes();
    let tm = next_magic9(MODERN_WRITE_SEED);
    let data = build_modern(files);
    let h = header_bytes(3);
    let sd = spec_u32_to_le_bytes(MODERN_WRITE_SEED);
    let tbl = modern_table(files, 12 + modern_table_len(files) + 4, tm);
    let term = spec_u32_to_le_bytes(0u32 ^ tm);
    let dreg = modern_data(files);
    assert(data == h + sd + tbl + term + dreg);
    lemma_modern_table_bytes_len(files, 12 + modern_table_len(files) + 4, tm);
    lemma_modern_table_len_nonneg(files);
    lemma_modern_data_bytes_len(files);
    lemma_modern_data_len_nonneg(files);
    assert(data.len() >= 16);
    assert(data[0] == 0x52 && data[1] == 0x47 && data[2] == 0x53 && data[3] == 0x53 && data[4]
        == 0x41 && data[5] == 0x44);
    assert(header_magic_ok(data));
    assert(data[7] == 3);
    assert(data.subrange(8, 12) =~= sd);
    lemma_modern_parse_from(files, 0);
    assert(files.take(0) =~= Seq::<FileV>::empty());
    assert(modern_table_len(files.take(0)) == 0);
    assert(Seq::new((files.len() - 0) as nat, |j: int| modern_entry_of(files, 0 + j))
        =~= modern_entries_of(files));
}

/// Extraction round trip: the data region a built modern archive records
/// for file `i` deciphers, from the entry's seed, back to the file's
/// exact contents.
pub proof fn lemma_modern_extract_round_trip(files: Seq<FileV>, i: int)
    requires
        modern_fits(files),
        0 <= i < files.len(),
    ensures
        cipher_seq(
            extract_region(build_modern(files), modern_entry_of(files, i)),
            FIXED_SEED,
            0,
        ) == files[i].data,
{
    lemma_auto_spec_u32_to_from_le_bytes();
    let tm = next_magic9(MODERN_WRITE_SEED);
    let data = build_modern(files);
    let mtl = modern_table_len(files);
    let mdl = modern_data_len(files);
    let te = 12 + mtl + 4;
    let h = header_bytes(3);
    let sd = spec_u32_to_le_bytes(MODERN_WRITE_SEED);
    let tbl = modern_table(files, te, tm);
    let term = spec_u32_to_le_bytes(0u32 ^ tm);
    let dreg = modern_data(files);
    assert(data == h + sd + tbl + term + dreg);
    lemma_modern_table_bytes_len(files, te, tm);
    lemma_modern_data_bytes_len(files);
    assert(data.len() == te + mdl);
    lemma_modern_data_split(files, i);
    lemma_modern_data_len_split(files, i);
    lemma_modern_data_len_nonneg(files.take(i));
    lemma_modern_data_len_nonneg(files.skip(i));
    lemma_modern_data_bytes_len(files.take(i));
    lemma_modern_table_len_nonneg(files);
    let tail = files.skip(i);
    let f = files[i];
    assert(tail[0] == f);
    assert(tail.skip(1) =~= files.skip(i + 1));
    lemma_modern_data_len_nonneg(files.skip(i + 1));
    lemma_modern_data_bytes_len(files.skip(i + 1));
    let sz = f.data.len() as int;
    assert(modern_data(tail) == cipher_seq(f.data, FIXED_SEED, 0) + modern_data(files.skip(i + 1)));
    let off_i = te + modern_data_len(files.take(i));
    assert(16 <= off_i);
    assert(off_i + sz <= data.len());
    let e = modern_entry_of(files, i);
    assert(e.offset == off_i as u32 && e.size == sz as u32);
    assert(e.offset == off_i && e.size == sz);
    assert(extract_region(data, e) == data.subrange(off_i, off_i + sz));
    assert(data.subrange(off_i, off_i + sz) =~= cipher_seq(f.data, FIXED_SEED, 0));
    lemma_cipher_self_inverse(f.data, FIXED_SEED, 0);
}

/// Byte length of the interleaved legacy records and data of `files`:
/// two 32-bit fields, the name, and the data, per file.
pub open spec fn legacy_body_len(files: Seq<FileV>) -> int
    decreases files.len(),
{
    if files.len() == 0 {
        0
    } else {
        8 + files[0].name.len() + files[0].data.len() + legacy_body_len(files.skip(1))
    }
}

/// The legacy table generator's state after the records of `files`,
/// entering at `m`: one word per length and size field, one word per
/// name byte, and none for the data, which forks its own state.
pub open spec fn legacy_magic_after(files: Seq<FileV>, m: u32) -> u32
    decreases files.len(),
{
    if files.len() == 0 {
        m
    } else {
        legacy_magic_after(files.skip(1), magic_at(m, (2 + files[0].name.len()) as nat))
    }
}

proof fn lemma_legacy_body_len_nonneg(files: Seq<FileV>)
    ensures
        legacy_body_len(files) >= 0,
    decreases files.len(),
{
    if files.len() > 0 {
        lemma_legacy_body_len_nonneg(files.skip(1));
    }
}

/// Splitting the list splits the body length.
proof fn lemma_legacy_body_len_split(files: Seq<FileV>, i: int)
    requires
        0 <= i <= files.len(),
    ensures
        legacy_body_len(files) == legacy_body_len(files.take(i)) + legacy_body_len(files.skip(i)),
    decreases i,
{
    if i == 0 {
        assert(files.take(0) =~= Seq::<FileV>::empty());
        assert(files.skip(0) =~= files);
    } else {
        let rest = files.skip(1);
        lemma_legacy_body_len_split(rest, i - 1);
        assert(files.take(i)[0] == files[0]);
        assert(files.take(i).skip(1) =~= rest.take(i - 1));
        assert(rest.skip(i - 1) =~= files.skip(i));
    }
}

/// The interleaved records and data of `files` occupy exactly
/// `legacy_body_len(files)` bytes, whatever the generator state.
proof fn lemma_legacy_body_bytes_len(files: Seq<FileV>, m: u32)
    ensures
        build_legacy_body(files, m).len() == legacy_body_len(files),
    decreases files.len(),
{
    lemma_auto_spec_u32_to_from_le_bytes();
    if files.len() > 0 {
        lemma_legacy_body_bytes_len(
            files.skip(1),
            next_magic(magic_at(m, (1 + files[0].name.len()) as nat)),
        );
    }
}

/// Splitting the list splits the body bytes; the later records continue
/// from the generator state the earlier ones reach.
proof fn lemma_legacy_body_split(files: Seq<FileV>, i: int, m: u32)
    requires
        0 <= i <= files.len(),
    ensures
        build_legacy_body(files, m) == build_legacy_body(files.take(i), m) + build_legacy_body(
            files.skip(i),
            legacy_magic_after(files.take(i), m),
        ),
    decreases i,
{
    if i == 0 {
        assert(files.take(0) =~= Seq::<FileV>::empty());
        assert(files.skip(0) =~= files);
        assert(build_legacy_body(files, m) =~= build_legacy_body(files.take(0), m)
            + build_legacy_body(files.skip(0), legacy_magic_after(files.take(0), m)));
    } else {
        let rest = files.skip(1);
        let m1 = magic_at(m, (2 + files[0].name.len()) as nat);
        lemma_legacy_body_split(rest, i - 1, m1);
        assert(files.take(i)[0] == files[0]);
        assert(files.take(i).skip(1) =~= rest.take(i - 1));
        assert(rest.skip(i - 1) =~= files.skip(i));
        assert(legacy_magic_after(files.take(i), m) == legacy_magic_after(rest.take(i - 1), m1));
        assert(magic_at(m, (2 + files[0].name.len()) as nat) == next_magic(
            magic_at(m, (1 + files[0].name.len()) as nat),
        )) by {
            crate::keystream::lemma_magic_at_add(m, (1 + files[0].name.len()) as nat, 1);
        }
        assert(build_legacy_body(files, m) =~= build_legacy_body(files.take(i), m)
            + build_legacy_body(files.skip(i), legacy_magic_after(files.take(i), m)));
    }
}

/// One more record moves the threaded generator state one record on.
proof fn lemma_legacy_magic_after_snoc(files: Seq<FileV>, i: int, m: u32)
    requires
        0 <= i < files.len(),
    ensures
        legacy_magic_after(files.take(i + 1), m) == magic_at(
            legacy_magic_after(files.take(i), m),
            (2 + files[i].name.len()) as nat,
        ),
    decreases i,
{
    if i == 0 {
        assert(files.take(0) =~= Seq::<FileV>::empty());
        assert(files.take(1)[0] == files[0]);
        assert(files.take(1).skip(1) =~= Seq::<FileV>::empty());
        assert(legacy_magic_after(files.take(0), m) == m);
        assert(legacy_magic_after(files.take(1), m) == legacy_magic_after(
            files.take(1).skip(1),
            magic_at(m, (2 + files[0].name.len()) as nat),
        ));
        assert(legacy_magic_after(files.take(1), m) == magic_at(
            m,
            (2 + files[0].name.len()) as nat,
        ));
    } else {
        let rest = files.skip(1);
        let m1 = magic_at(m, (2 + files[0].name.len()) as nat);
        lemma_legacy_magic_after_snoc(rest, i - 1, m1);
        assert(files.take(i)[0] == files[0]);
        assert(files.take(i).skip(1) =~= rest.take(i - 1));
        assert(files.take(i + 1)[0] == files[0]);
        assert(files.take(i + 1).skip(1) =~= rest.take(i));
        assert(rest[i - 1] == files[i]);
        assert(legacy_magic_after(files.take(i + 1), m) == legacy_magic_after(rest.take(i), m1));
        assert(legacy_magic_after(files.take(i), m) == legacy_magic_after(rest.take(i - 1), m1));
    }
}

/// The whole legacy archive, header and body, stays inside the 32-bit
/// positions the legacy reader stores as data offsets.
pub open spec fn legacy_total_fits(files: Seq<FileV>) -> bool {
    8 + legacy_body_len(files) <= u32::MAX
}

/// The entry the legacy layout records for file `i`: its normalized
/// name, its data right after its own record, its exact size, and the
/// generator state after its size field, where its data cipher forks off.
pub open spec fn legacy_entry_of(files: Seq<FileV>, i: int) -> EntryV {
    let m = legacy_magic_after(files.take(i), FIXED_SEED);
    EntryV {
        name: normalize_name(files[i].name),
        offset: (8 + legacy_body_len(files.take(i)) + 8 + files[i].name.len()) as u32,
        size: files[i].data.len() as u32,
        magic: magic_at(m, (2 + files[i].name.len()) as nat),
    }
}

pub open spec fn legacy_entries_of(files: Seq<FileV>) -> Seq<EntryV> {
    Seq::new(files.len(), |i: int| legacy_entry_of(files, i))
}

/// Parsing a built legacy archive from the start of record `i`, with the
/// generator state the earlier records reach, yields exactly the entries
/// of the files from `i` on; at the body's end, the next read fails and
/// the parse stops with nothing.
#[verifier::rlimit(100)]
proof fn lemma_legacy_parse_from(version: u8, all: Seq<FileV>, i: int)
    requires
        legacy_fits(all),
        legacy_total_fits(all),
        names_well_formed(all),
        0 <= i <= all.len(),
    ensures
        parse_legacy(
            build_legacy(version, all),
            8 + legacy_body_len(all.take(i)),
            legacy_magic_after(all.take(i), FIXED_SEED),
        ) == Ok::<Seq<EntryV>, ()>(
            Seq::new((all.len() - i) as nat, |j: int| legacy_entry_of(all, i + j)),
        ),
    decreases all.len() - i,
{
    lemma_auto_spec_u32_to_from_le_bytes();
    let data = build_legacy(version, all);
    let h = header_bytes(version);
    let body = build_legacy_body(all, FIXED_SEED);
    assert(data == h + body);
    lemma_legacy_body_bytes_len(all, FIXED_SEED);
    assert(data.len() == 8 + legacy_body_len(all));
    lemma_legacy_body_split(all, i, FIXED_SEED);
    lemma_legacy_body_len_split(all, i);
    lemma_legacy_body_len_nonneg(all.take(i));
    lemma_legacy_body_len_nonneg(all.skip(i));
    let m_i = legacy_magic_after(all.take(i), FIXED_SEED);
    let body_b = build_legacy_body(all.skip(i), m_i);
    lemma_legacy_body_bytes_len(all.take(i), FIXED_SEED);
    lemma_legacy_body_bytes_len(all.skip(i), m_i);
    let pos = 8 + legacy_body_len(all.take(i));
    if i == all.len() {
        assert(all.take(i) =~= all);
        assert(pos == data.len());
        assert(parse_legacy(data, pos, m_i) == Ok::<Seq<EntryV>, ()>(Seq::empty()));
        assert(Seq::new((all.len() - i) as nat, |j: int| legacy_entry_of(all, i + j)) =~= Seq::<
            EntryV,
        >::empty());
    } else {
        let tail = all.skip(i);
        let f = all[i];
        assert(tail[0] == f);
        assert(tail.skip(1) =~= all.skip(i + 1));
        let nl = f.name.len() as int;
        let sz = f.data.len() as int;
        lemma_legacy_body_len_nonneg(all.skip(i + 1));
        assert(legacy_body_len(tail) == 8 + nl + sz + legacy_body_len(all.skip(i + 1)));
        let m1 = next_magic(m_i);
        let m2 = magic_at(m_i, (1 + nl) as nat);
        let m3 = next_magic(m2);
        assert(magic_at(m_i, (2 + nl) as nat) == m3) by {
            crate::keystream::lemma_magic_at_add(m_i, (1 + nl) as nat, 1);
            assert(magic_at(m2, 1) == next_magic(magic_at(m2, 0)));
        }
        let fa = spec_u32_to_le_bytes((nl as u32) ^ m_i);
        let fe = encode_name_legacy(f.name, m1);
        let fb = spec_u32_to_le_bytes((sz as u32) ^ m2);
        let fdta = cipher_seq(f.data, m3, 0);
        let rest2 = build_legacy_body(all.skip(i + 1), m3);
        assert(body_b == fa + fe + fb + fdta + rest2);
        assert(fe.len() == nl);
        assert(fdta.len() == sz);
        assert(crate::table::file_fits_u32(all[i]));
        let nlw = (nl as u32);
        let szw = (sz as u32);
        assert(nlw as int == nl && szw as int == sz);
        // the record's bytes, read back out of the archive
        assert(data.subrange(pos, pos + 4) =~= fa);
        assert(data.subrange(pos + 4, pos + 4 + nl) =~= fe);
        assert(data.subrange(pos + 4 + nl, pos + 8 + nl) =~= fb);
        assert((nlw ^ m_i) ^ m_i == nlw) by (bit_vector);
        assert((szw ^ m2) ^ m2 == szw) by (bit_vector);
        lemma_name_round_trip_legacy(f.name, m1);
        assert(is_utf8(normalize_name(f.name)));
        assert(pos + 8 + nl + sz <= data.len());
        vstd::arithmetic::div_mod::lemma_small_mod((pos + 8 + nl) as nat, 0x1_0000_0000);
        lemma_legacy_body_len_split(all, i + 1);
        assert(legacy_body_len(all.take(i + 1)) == legacy_body_len(all.take(i)) + 8 + nl + sz);
        lemma_legacy_magic_after_snoc(all, i, FIXED_SEED);
        assert(legacy_magic_after(all.take(i + 1), FIXED_SEED) == m3);
        let pos2 = pos + 8 + nl + sz;
        let entry = EntryV {
            name: normalize_name(f.name),
            offset: (pos + 8 + nl) as u32,
            size: szw,
            magic: m3,
        };
        assert(entry == legacy_entry_of(all, i));
        if i + 1 == all.len() {
            assert(all.take(i + 1) =~= all);
            assert(pos2 == data.len());
            assert(parse_legacy(data, pos, m_i) == Ok::<Seq<EntryV>, ()>(seq![entry]));
            assert(seq![entry] =~= Seq::new(
                (all.len() - i) as nat,
                |j: int| legacy_entry_of(all, i + j),
            ));
        } else {
            assert(all.skip(i + 1).len() > 0);
            assert(all.skip(i + 1)[0] == all[i + 1]);
            assert(all.skip(i + 1).skip(1) =~= all.skip(i + 2));
            lemma_legacy_body_len_nonneg(all.skip(i + 2));
            assert(legacy_body_len(all.skip(i + 1)) >= 8);
            assert(pos2 + 4 <= data.len());
            lemma_legacy_parse_from(version, all, i + 1);
            let suffix1 = Seq::new(
                (all.len() - (i + 1)) as nat,
                |j: int| legacy_entry_of(all, i + 1 + j),
            );
            assert(parse_legacy(data, pos2, m3) == Ok::<Seq<EntryV>, ()>(suffix1));
            assert(parse_legacy(data, pos, m_i) == Ok::<Seq<EntryV>, ()>(seq![entry] + suffix1));
            assert(seq![entry] + suffix1 =~= Seq::new(
                (all.len() - i) as nat,
                |j: int| legacy_entry_of(all, i + j),
            ));
        }
    }
}

/// Legacy round trip: an archive built from any files, in either legacy
/// version, opens with exactly one entry per file, names normalized,
/// sizes exact, in table order.
pub proof fn lemma_legacy_round_trip(version: u8, files: Seq<FileV>)
    requires
        version == 1 || version == 2,
        legacy_fits(files),
        legacy_total_fits(files),
        names_well_formed(files),
    ensures
        open_spec(build_legacy(version, files)) == Ok::<(u8, Seq<EntryV>), ArchiveError>(
            (version, legacy_entries_of(files)),
        ),
{
    let data = build_legacy(version, files);
    let h = header_bytes(version);
    assert(data == h + build_legacy_body(files, FIXED_SEED));
    lemma_legacy_body_bytes_len(files, FIXED_SEED);
    lemma_legacy_body_len_nonneg(files);
    assert(data.len() >= 8);
    assert(data[0] == 0x52 && data[1] == 0x47 && data[2] == 0x53 && data[3] == 0x53 && data[4]
        == 0x41 && data[5] == 0x44);
    assert(header_magic_ok(data));
    assert(data[7] == version);
    lemma_legacy_parse_from(version, files, 0);
    assert(files.take(0) =~= Seq::<FileV>::empty());
    assert(legacy_body_len(files.take(0)) == 0);
    assert(legacy_magic_after(files.take(0), FIXED_SEED) == FIXED_SEED);
    assert(Seq::new((files.len() - 0) as nat, |j: int| legacy_entry_of(files, 0 + j))
        =~= legacy_entries_of(files));
}

/// Extraction round trip: the data region a built legacy archive records
/// for file `i` deciphers, from the entry's own seed, back to the file's
/// exact contents.
pub proof fn lemma_legacy_extract_round_trip(version: u8, files: Seq<FileV>, i: int)
    requires
        legacy_fits(files),
        legacy_total_fits(files),
        0 <= i < files.len(),
    ensures
        cipher_seq(
            extract_region(build_legacy(version, files), legacy_entry_of(files, i)),
            legacy_entry_of(files, i).magic,
            0,
        ) == files[i].data,
{
    lemma_auto_spec_u32_to_from_le_bytes();
    let data = build_legacy(version, files);
    let h = header_bytes(version);
    assert(data == h + build_legacy_body(files, FIXED_SEED));
    lemma_legacy_body_bytes_len(files, FIXED_SEED);
    assert(data.len() == 8 + legacy_body_len(files));
    lemma_legacy_body_split(files, i, FIXED_SEED);
    lemma_legacy_body_len_split(files, i);
    lemma_legacy_body_len_nonneg(files.take(i));
    lemma_legacy_body_len_nonneg(files.skip(i));
    let m_i = legacy_magic_after(files.take(i), FIXED_SEED);
    lemma_legacy_body_bytes_len(files.take(i), FIXED_SEED);
    lemma_legacy_body_bytes_len(files.skip(i), m_i);
    let pos = 8 + legacy_body_len(files.take(i));
    let tail = files.skip(i);
    let f = files[i];
    assert(tail[0] == f);
    assert(tail.skip(1) =~= files.skip(i + 1));
    let nl = f.name.len() as int;
    let sz = f.data.len() as int;
    lemma_legacy_body_len_nonneg(files.skip(i + 1));
    assert(legacy_body_len(tail) == 8 + nl + sz + legacy_body_len(files.skip(i + 1)));
    let m1 = next_magic(m_i);
    let m2 = magic_at(m_i, (1 + nl) as nat);
    let m3 = next_magic(m2);
    assert(magic_at(m_i, (2 + nl) as nat) == m3) by {
        crate::keystream::lemma_magic_at_add(m_i, (1 + nl) as nat, 1);
        assert(magic_at(m2, 1) == next_magic(magic_at(m2, 0)));
    }
    let fa = spec_u32_to_le_bytes((nl as u32) ^ m_i);
    let fe = encode_name_legacy(f.name, m1);
    let fb = spec_u32_to_le_bytes((sz as u32) ^ m2);
    let fdta = cipher_seq(f.data, m3, 0);
    let rest2 = build_legacy_body(files.skip(i + 1), m3);
    assert(build_legacy_body(tail, m_i) == fa + fe + fb + fdta + rest2);
    assert(fe.len() == nl);
    assert(fdta.len() == sz);
    assert(crate::table::file_fits_u32(files[i]));
    let e = legacy_entry_of(files, i);
    assert(e.offset == pos + 8 + nl);
    assert(e.size == sz);
    assert(e.magic == m3);
    assert(extract_region(data, e) == data.subrange(pos + 8 + nl, pos + 8 + nl + sz));
    assert(data.subrange(pos + 8 + nl, pos + 8 + nl + sz) =~= fdta);
    lemma_cipher_self_inverse(f.data, m3, 0);
}

} // verus!
