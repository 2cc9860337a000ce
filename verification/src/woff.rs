//! WOFF 1.0 container handling.
//!
//! WOFF is a thin wrapper: an sfnt whose tables have each been zlib-compressed
//! individually.
use vstd::prelude::*;

use miniz_oxide::deflate::compress_to_vec_zlib;
use miniz_oxide::inflate::decompress_to_vec_zlib_with_limit;

use crate::bytes::{
    be16, be32, lemma_append, lemma_be16_reads_back, lemma_be32_reads_back, pad4, push_all,
    push_u16, push_u32, u16_at, u32_at, zeros,
};
use crate::error::{read_error, Problem, SliceError};
use crate::sfnt::{
    assemble_sfnt, body, fits_sfnt, lemma_record_fields, padded, padded_len32, push_low32,
    push_padding, push_sum32, sfnt_bytes, split_of, split_sfnt, table_error, table_offset,
    tables_view, tag_here, tag_key, tag_value, tags_ok, u32_here, SfntTable, Table,
};
use crate::sort::{arranged, key_values, order_of};
use crate::text::{decimal, decimal_of, join2, join3, lossy_text};

verus! {

pub const WOFF_HEADER_LEN: usize = 44;

pub const WOFF_ENTRY_LEN: usize = 20;

/// Largest table that is inflated, as a guard against an implausible `origLength`.
pub const MAX_TABLE_LEN: usize = 0x1000_0000;

// ------------------------------------------------------------------------ compression

/// What `compress_to_vec_zlib` makes of `bytes` at level 8.
pub uninterp spec fn deflated(bytes: Seq<u8>) -> Seq<u8>;

/// What `decompress_to_vec_zlib_with_limit` makes of `data` when it may grow to `limit`
/// bytes; nothing when it fails.
pub uninterp spec fn inflated(data: Seq<u8>, limit: int) -> Option<Seq<u8>>;

/// Calls `miniz_oxide::deflate::compress_to_vec_zlib` at level 8. What it gives back is a
/// zlib stream that inflates to the input again, with just enough room for it.
///
/// Level 8 rather than the maximum: WOFF is generally an intermediate artefact and the
/// last two levels cost noticeably more time for very little size.
#[verifier::external_body]
fn deflate(bytes: &[u8]) -> (out: Vec<u8>)
    ensures
        out@ == deflated(bytes@),
        inflated(out@, bytes@.len() as int) == Some(bytes@),
{
    compress_to_vec_zlib(bytes, 8)
}

/// Calls `miniz_oxide::inflate::decompress_to_vec_zlib_with_limit`, whose output is never
/// longer than the limit.
#[verifier::external_body]
fn inflate(data: &[u8], limit: usize) -> (out: Option<Vec<u8>>)
    ensures
        match out {
            Some(bytes) => inflated(data@, limit as int) == Some(bytes@) && bytes@.len() <= limit,
            None => inflated(data@, limit as int) is None,
        },
{
    decompress_to_vec_zlib_with_limit(data, limit).ok()
}

// ---------------------------------------------------------------------------- reading

/// An entry of the WOFF table directory.
pub struct WoffEntry {
    pub tag: Seq<u8>,
    pub offset: int,
    pub comp_length: int,
    pub orig_length: int,
    pub checksum: int,
}

/// Entry number `i` of the WOFF table directory.
pub open spec fn woff_entry(data: Seq<u8>, i: int) -> WoffEntry {
    let base = 44 + 20 * i;
    WoffEntry {
        tag: data.subrange(base, base + 4),
        offset: u32_at(data, base + 4),
        comp_length: u32_at(data, base + 8),
        orig_length: u32_at(data, base + 12),
        checksum: u32_at(data, base + 16),
    }
}

/// All entries of the WOFF table directory.
pub open spec fn woff_entries(data: Seq<u8>) -> Seq<WoffEntry> {
    Seq::new(u16_at(data, 12) as nat, |i: int| woff_entry(data, i))
}

/// The entries in the order of their tags, which the sfnt table directory needs and WOFF
/// does not.
pub open spec fn sorted_entries(entries: Seq<WoffEntry>) -> Seq<WoffEntry> {
    arranged(entries, entries.map_values(|e: WoffEntry| tag_value(e.tag)))
}

pub open spec fn woff_table_error(tag: Seq<u8>, why: Seq<char>) -> Problem {
    Problem::Read("WOFF table "@ + lossy_text(tag) + why)
}

/// The table that an entry describes. A table is stored uncompressed when compressing it
/// would not have made it smaller, and that is signalled by the two lengths being equal.
pub open spec fn woff_table(data: Seq<u8>, e: WoffEntry) -> Result<Table, Problem> {
    if e.offset + e.comp_length > data.len() {
        Err(woff_table_error(e.tag, " extends past end of file"@))
    } else if e.orig_length > MAX_TABLE_LEN {
        Err(woff_table_error(e.tag, " declares an implausible length"@))
    } else {
        let raw = data.subrange(e.offset, e.offset + e.comp_length);
        let bytes = if e.comp_length == e.orig_length {
            Some(raw)
        } else {
            inflated(raw, e.orig_length)
        };
        match bytes {
            None => Err(woff_table_error(e.tag, " failed to decompress"@)),
            Some(bytes) => if bytes.len() != e.orig_length {
                Err(
                    woff_table_error(
                        e.tag,
                        " decompressed to "@ + decimal(bytes.len()) + " bytes, expected "@
                            + decimal(e.orig_length as nat),
                    ),
                )
            } else {
                Ok(Table { tag: e.tag, checksum: e.checksum, bytes })
            },
        }
    }
}

/// The tables that the entries from number `i` on describe, after `tables`.
pub open spec fn woff_tables_from(
    data: Seq<u8>,
    entries: Seq<WoffEntry>,
    i: int,
    tables: Seq<Table>,
) -> Result<Seq<Table>, Problem>
    decreases entries.len() - i,
{
    if i < 0 || i >= entries.len() {
        Ok(tables)
    } else {
        match woff_table(data, entries[i]) {
            Ok(table) => woff_tables_from(data, entries, i + 1, tables.push(table)),
            Err(p) => Err(p),
        }
    }
}

pub open spec fn woff_signature() -> Seq<u8> {
    seq![0x77u8, 0x4fu8, 0x46u8, 0x46u8]
}

/// The sfnt that a WOFF file wraps.
pub open spec fn woff_decoded(data: Seq<u8>) -> Result<Seq<u8>, Problem> {
    if data.len() < 44 || data.subrange(0, 4) != woff_signature() {
        Err(Problem::Read("not a WOFF file"@))
    } else if u16_at(data, 12) == 0 {
        Err(Problem::Read("WOFF file declares no tables"@))
    } else if 44 + 20 * u16_at(data, 12) > data.len() {
        Err(Problem::Read("truncated WOFF table directory"@))
    } else {
        match woff_tables_from(data, sorted_entries(woff_entries(data)), 0, Seq::empty()) {
            Ok(tables) => Ok(sfnt_bytes(u32_at(data, 4), tables)),
            Err(p) => Err(p),
        }
    }
}

#[derive(Clone, Copy)]
struct Entry {
    tag: [u8; 4],
    offset: u32,
    comp_length: u32,
    orig_length: u32,
    checksum: u32,
}

impl View for Entry {
    type V = WoffEntry;

    closed spec fn view(&self) -> WoffEntry {
        WoffEntry {
            tag: self.tag@,
            offset: self.offset as int,
            comp_length: self.comp_length as int,
            orig_length: self.orig_length as int,
            checksum: self.checksum as int,
        }
    }
}

spec fn entries_view(entries: Seq<Entry>) -> Seq<WoffEntry> {
    entries.map_values(|e: Entry| e@)
}

fn read_entry(data: &[u8], i: usize) -> (e: Entry)
    requires
        i <= 0xffff,
        44 + 20 * i + 20 <= data@.len(),
    ensures
        e@ == woff_entry(data@, i as int),
{
    let base: usize = WOFF_HEADER_LEN + i * WOFF_ENTRY_LEN;
    Entry {
        tag: tag_here(data, base),
        offset: u32_here(data, base + 4),
        comp_length: u32_here(data, base + 8),
        orig_length: u32_here(data, base + 12),
        checksum: u32_here(data, base + 16),
    }
}

fn sort_entries(entries: Vec<Entry>) -> (out: Vec<Entry>)
    ensures
        entries_view(out@) == sorted_entries(entries_view(entries@)),
{
    let ghost all = entries_view(entries@);
    let ghost tags = all.map_values(|e: WoffEntry| tag_value(e.tag));
    let mut keys: Vec<u64> = Vec::new();
    for i in 0..entries.len()
        invariant
            all == entries_view(entries@),
            keys@.len() == i,
            forall|k: int| 0 <= k < i ==> #[trigger] keys@[k] == tag_value(all[k].tag),
    {
        assert(all[i as int] == entries@[i as int]@);
        keys.push(tag_key(&entries[i].tag));
    }
    assert(key_values(keys@) =~= tags);
    let order: Vec<usize> = order_of(&keys);
    let ghost order_values = order@.map_values(|i: usize| i as int);
    let mut out: Vec<Entry> = Vec::new();
    for i in 0..order.len()
        invariant
            all == entries_view(entries@),
            order@.len() == entries@.len(),
            forall|k: int| 0 <= k < order@.len() ==> #[trigger] order@[k] < entries@.len(),
            out@.len() == i,
            forall|k: int| 0 <= k < i ==> (#[trigger] out@[k])@ == all[order@[k] as int],
    {
        out.push(entries[order[i]]);
    }
    assert(entries_view(out@) =~= sorted_entries(all)) by {
        assert forall|k: int| 0 <= k < out@.len() implies #[trigger] entries_view(out@)[k]
            == sorted_entries(all)[k] by {
            assert(out@[k]@ == all[order@[k] as int]);
            assert(order_values[k] == order@[k]);
        }
    }
    out
}

/// Read the table that one entry describes.
fn read_table(data: &[u8], e: &Entry) -> (r: Result<SfntTable, SliceError>)
    ensures
        match r {
            Ok(table) => woff_table(data@, e@) == Ok::<Table, Problem>(table@),
            Err(p) => woff_table(data@, e@) == Err::<Table, Problem>(p@),
        },
{
    let end: u64 = e.offset as u64 + e.comp_length as u64;
    if end > data.len() as u64 {
        return Err(table_error("WOFF table ", &e.tag, " extends past end of file"));
    }
    if e.orig_length as u64 > MAX_TABLE_LEN as u64 {
        return Err(table_error("WOFF table ", &e.tag, " declares an implausible length"));
    }
    let raw: &[u8] = vstd::slice::slice_subrange(data, e.offset as usize, end as usize);
    let bytes: Vec<u8> = if e.comp_length == e.orig_length {
        crate::bytes::copy(raw)
    } else {
        match inflate(raw, e.orig_length as usize) {
            Some(bytes) => bytes,
            None => {
                return Err(table_error("WOFF table ", &e.tag, " failed to decompress"));
            },
        }
    };
    if bytes.len() != e.orig_length as usize {
        let why: String = join2(
            join3(" decompressed to ", decimal_of(bytes.len() as u64).as_str(), " bytes, expected ").as_str(),
            decimal_of(e.orig_length as u64).as_str(),
        );
        return Err(table_error("WOFF table ", &e.tag, why.as_str()));
    }
    Ok(SfntTable { tag: e.tag, checksum: e.checksum, bytes })
}

/// Turn WOFF bytes into the sfnt they wrap.
pub fn decode_woff(data: &[u8]) -> (r: Result<Vec<u8>, SliceError>)
    ensures
        match r {
            Ok(sfnt) => woff_decoded(data@) == Ok::<Seq<u8>, Problem>(sfnt@),
            Err(e) => woff_decoded(data@) == Err::<Seq<u8>, Problem>(e@),
        },
{
    if data.len() < WOFF_HEADER_LEN {
        return Err(read_error("not a WOFF file"));
    }
    assert(data@.subrange(0, 4) =~= seq![data@[0], data@[1], data@[2], data@[3]]);
    if !(data[0] == 0x77 && data[1] == 0x4f && data[2] == 0x46 && data[3] == 0x46) {
        assert(data@.subrange(0, 4) != woff_signature()) by {
            if data@.subrange(0, 4) == woff_signature() {
                assert(data@.subrange(0, 4)[0] == data@[0] && data@.subrange(0, 4)[1] == data@[1]
                    && data@.subrange(0, 4)[2] == data@[2] && data@.subrange(0, 4)[3] == data@[3]);
            }
        }
        return Err(read_error("not a WOFF file"));
    }
    let flavor: u32 = u32_here(data, 4);
    let num_tables: usize = data[12] as usize * 256 + data[13] as usize;
    if num_tables == 0 {
        return Err(read_error("WOFF file declares no tables"));
    }
    if WOFF_HEADER_LEN + num_tables * WOFF_ENTRY_LEN > data.len() {
        return Err(read_error("truncated WOFF table directory"));
    }
    let mut entries: Vec<Entry> = Vec::new();
    for i in 0..num_tables
        invariant
            num_tables == u16_at(data@, 12),
            num_tables <= 0xffff,
            44 + 20 * num_tables <= data@.len(),
            entries@.len() == i,
            forall|k: int| 0 <= k < i ==> (#[trigger] entries@[k])@ == woff_entry(data@, k),
    {
        entries.push(read_entry(data, i));
    }
    assert(entries_view(entries@) =~= woff_entries(data@));
    let entries: Vec<Entry> = sort_entries(entries);
    let ghost all = entries_view(entries@);
    let mut tables: Vec<SfntTable> = Vec::new();
    let ghost outcome = woff_tables_from(data@, all, 0, Seq::empty());
    assert(tables_view(tables@) =~= Seq::<Table>::empty());
    for i in 0..entries.len()
        invariant
            all == entries_view(entries@),
            outcome == woff_tables_from(data@, all, i as int, tables_view(tables@)),
            outcome matches Err(p) ==> woff_decoded(data@) == Err::<Seq<u8>, Problem>(p),
    {
        assert(all[i as int] == entries@[i as int]@);
        match read_table(data, &entries[i]) {
            Ok(table) => {
                let ghost before = tables_view(tables@);
                tables.push(table);
                assert(tables_view(tables@) =~= before.push(table@));
            },
            Err(e) => {
                return Err(e);
            },
        }
    }
    Ok(assemble_sfnt(flavor, &tables))
}

// ---------------------------------------------------------------------------- writing

/// What is stored of a table: its compressed form, where that is smaller.
pub open spec fn stored(bytes: Seq<u8>) -> Seq<u8> {
    if deflated(bytes).len() < bytes.len() {
        deflated(bytes)
    } else {
        bytes
    }
}

/// The first `n` stored tables, each starting at a multiple of four.
pub open spec fn woff_body(tables: Seq<Table>, n: int) -> Seq<u8>
    decreases n,
{
    if n <= 0 {
        Seq::empty()
    } else {
        padded(woff_body(tables, n - 1)) + stored(tables[n - 1].bytes)
    }
}

/// Where the stored form of table number `i` goes.
pub open spec fn woff_offset(tables: Seq<Table>, i: int) -> int {
    44 + 20 * (tables.len() as int) + padded(woff_body(tables, i)).len()
}

/// Entry number `i` of the WOFF table directory.
pub open spec fn woff_entry_bytes(tables: Seq<Table>, i: int) -> Seq<u8> {
    tables[i].tag + be32(woff_offset(tables, i)) + be32(stored(tables[i].bytes).len() as int)
        + be32(tables[i].bytes.len() as int) + be32(tables[i].checksum)
}

/// The first `n` entries of the WOFF table directory.
pub open spec fn woff_directory(tables: Seq<Table>, n: int) -> Seq<u8>
    decreases n,
{
    if n <= 0 {
        Seq::empty()
    } else {
        woff_directory(tables, n - 1) + woff_entry_bytes(tables, n - 1)
    }
}

/// How long the whole file is.
pub open spec fn woff_len(tables: Seq<Table>) -> int {
    44 + 20 * (tables.len() as int) + woff_body(tables, tables.len() as int).len()
}

/// The WOFF header: what the file holds, and what the sfnt it wraps will take.
#[verifier::opaque]
pub open spec fn woff_header(flavor: int, tables: Seq<Table>) -> Seq<u8> {
    woff_signature() + be32(flavor) + be32(woff_len(tables)) + be16(tables.len() as int) + be16(0)
        + be32(12 + 16 * (tables.len() as int) + body(tables).len()) + zeros(24)
}

/// A WOFF file.
pub open spec fn woff_bytes(flavor: int, tables: Seq<Table>) -> Seq<u8> {
    woff_header(flavor, tables) + woff_directory(tables, tables.len() as int) + woff_body(
        tables,
        tables.len() as int,
    )
}

fn write_header(
    flavor: u32,
    num_tables: u16,
    body_len: usize,
    sfnt_size: u64,
    Ghost(tables): Ghost<Seq<Table>>,
) -> (out: Vec<u8>)
    requires
        num_tables == tables.len(),
        body_len == woff_body(tables, tables.len() as int).len(),
        sfnt_size == (12 + 16 * (tables.len() as int) + body(tables).len()) % 0x1_0000_0000,
    ensures
        out@ == woff_header(flavor as int, tables),
{
    let mut out: Vec<u8> = Vec::new();
    out.push(0x77);
    out.push(0x4f);
    out.push(0x46);
    out.push(0x46);
    assert(out@ =~= woff_signature());
    push_u32(&mut out, flavor);
    push_sum32(&mut out, 44 + 20 * num_tables as u64, body_len);
    push_u16(&mut out, num_tables);
    push_u16(&mut out, 0);
    proof {
        crate::sfnt::lemma_be32_wrapped(
            sfnt_size as int,
            12 + 16 * (tables.len() as int) + body(tables).len(),
        );
    }
    push_low32(&mut out, sfnt_size);
    let ghost before = out@;
    // The version, and the metadata and private blocks, of which there are none.
    for i in 0..24usize
        invariant
            out@ == before + zeros(i as int),
    {
        out.push(0);
        assert(out@ =~= before + zeros(i + 1));
    }
    reveal(woff_header);
    out
}

/// What is stored of a table.
fn stored_form(bytes: &[u8]) -> (out: Vec<u8>)
    ensures
        out@ == stored(bytes@),
        inflated(deflated(bytes@), bytes@.len() as int) == Some(bytes@),
{
    let compressed: Vec<u8> = deflate(bytes);
    if compressed.len() < bytes.len() {
        compressed
    } else {
        crate::bytes::copy(bytes)
    }
}

/// Append one entry of the table directory.
fn push_entry(
    directory: &mut Vec<u8>,
    table: &SfntTable,
    body_start: u64,
    at: usize,
    stored_len: usize,
)
    requires
        body_start < 0x1_0000_0000,
    ensures
        final(directory)@ == old(directory)@ + (table.tag@ + be32(body_start + at) + be32(
            stored_len as int,
        ) + be32(table.bytes@.len() as int) + be32(table.checksum as int)),
{
    let ghost before = directory@;
    push_all(directory, table.tag.as_slice());
    push_sum32(directory, body_start, at);
    push_low32(directory, stored_len as u64);
    push_low32(directory, table.bytes.len() as u64);
    push_u32(directory, table.checksum);
    let ghost t = table.tag@;
    let ghost o = be32(body_start + at);
    let ghost c = be32(stored_len as int);
    let ghost l = be32(table.bytes@.len() as int);
    let ghost k = be32(table.checksum as int);
    assert(before + t + o + c + l + k =~= before + (t + o + c + l + k));
}

/// Wrap an sfnt in a WOFF 1.0 container.
pub fn encode_woff(sfnt: &[u8]) -> (r: Result<Vec<u8>, SliceError>)
    ensures
        match r {
            Ok(woff) => split_of(sfnt@) matches Ok((flavor, tables)) && woff@ == woff_bytes(
                flavor,
                tables,
            ) && inflate_again(tables),
            Err(e) => split_of(sfnt@) == Err::<(int, Seq<Table>), Problem>(e@),
        },
{
    let (flavor, tables): (u32, Vec<SfntTable>) = match split_sfnt(sfnt) {
        Ok(parts) => parts,
        Err(e) => {
            return Err(e);
        },
    };
    let ghost all = tables_view(tables@);
    proof {
        crate::sfnt::lemma_split_count(sfnt@);
    }
    let num_tables: usize = tables.len();
    let body_start: u64 = 44 + 20 * num_tables as u64;
    let mut directory: Vec<u8> = Vec::new();
    let mut stored_tables: Vec<u8> = Vec::new();
    let mut sfnt_size: u64 = 12 + 16 * num_tables as u64;
    assert(body(all.take(0)) =~= Seq::<u8>::empty());
    for i in 0..tables.len()
        invariant
            all == tables_view(tables@),
            num_tables == all.len(),
            num_tables <= 0xffff,
            body_start == 44 + 20 * num_tables,
            forall|k: int|
                0 <= k < i ==> inflated(
                    deflated((#[trigger] all[k]).bytes),
                    all[k].bytes.len() as int,
                ) == Some(all[k].bytes),
            directory@ == woff_directory(all, i as int),
            stored_tables@ == woff_body(all, i as int),
            sfnt_size < 0x1_0000_0000,
            sfnt_size == (12 + 16 * (all.len() as int) + body(all.take(i as int)).len())
                % 0x1_0000_0000,
    {
        let table: &SfntTable = &tables[i];
        assert(all[i as int] == table@);
        let kept: Vec<u8> = stored_form(table.bytes.as_slice());
        assert(stored_tables@ =~= Seq::<u8>::empty() + stored_tables@);
        push_padding(&mut stored_tables, Ghost(Seq::empty()), Ghost(woff_body(all, i as int)));
        assert(stored_tables@ =~= padded(woff_body(all, i as int)));
        push_entry(&mut directory, table, body_start, stored_tables.len(), kept.len());
        push_all(&mut stored_tables, kept.as_slice());
        let step: u64 = padded_len32(table.bytes.len());
        proof {
            assert(all.take(i + 1).drop_last() =~= all.take(i as int));
            crate::sfnt::lemma_mod_add(
                12 + 16 * (all.len() as int) + body(all.take(i as int)).len(),
                pad4(table.bytes@.len() as int),
            );
        }
        sfnt_size = (sfnt_size + step) % 0x1_0000_0000;
    }
    assert(all.take(all.len() as int) =~= all);
    let mut out: Vec<u8> = write_header(
        flavor,
        num_tables as u16,
        stored_tables.len(),
        sfnt_size,
        Ghost(all),
    );
    push_all(&mut out, directory.as_slice());
    push_all(&mut out, stored_tables.as_slice());
    Ok(out)
}

// ------------------------------------------------------------------------------- laws

/// True when compressed tables inflate to themselves again, which is what [`encode_woff`]
/// has from the compressor.
pub open spec fn inflate_again(tables: Seq<Table>) -> bool {
    forall|i: int|
        0 <= i < tables.len() ==> inflated(
            deflated((#[trigger] tables[i]).bytes),
            tables[i].bytes.len() as int,
        ) == Some(tables[i].bytes)
}

/// True when a WOFF file can hold these tables: there is at least one, they are in the
/// order of their tags, none is implausibly long, and every length and offset fits its
/// field.
pub open spec fn fits_woff(tables: Seq<Table>) -> bool {
    &&& 0 < tables.len() <= u16::MAX
    &&& tags_ok(tables)
    &&& woff_len(tables) <= u32::MAX
    &&& forall|i: int|
        0 <= i < tables.len() ==> 0 <= (#[trigger] tables[i]).checksum <= u32::MAX
            && tables[i].bytes.len() <= MAX_TABLE_LEN
    &&& forall|i: int, j: int|
        0 <= i < j < tables.len() ==> tag_value(tables[i].tag) <= tag_value(tables[j].tag)
}

proof fn lemma_directory_slice(tables: Seq<Table>, n: int, i: int)
    requires
        tags_ok(tables),
        0 <= i < n <= tables.len(),
    ensures
        woff_directory(tables, n).len() == 20 * n,
        woff_directory(tables, n).subrange(20 * i, 20 * i + 20) == woff_entry_bytes(tables, i),
    decreases n,
{
    assert(tables[n - 1].tag.len() == 4);
    lemma_append(woff_directory(tables, n - 1), woff_entry_bytes(tables, n - 1));
    if i < n - 1 {
        lemma_directory_slice(tables, n - 1, i);
    } else if n > 1 {
        lemma_directory_slice(tables, n - 1, 0);
    }
}

proof fn lemma_body_slice(tables: Seq<Table>, n: int, i: int)
    requires
        0 <= i < n <= tables.len(),
    ensures
        padded(woff_body(tables, i)).len() + stored(tables[i].bytes).len() <= woff_body(
            tables,
            n,
        ).len(),
        woff_body(tables, n).subrange(
            padded(woff_body(tables, i)).len() as int,
            (padded(woff_body(tables, i)).len() + stored(tables[i].bytes).len()) as int,
        ) == stored(tables[i].bytes),
    decreases n,
{
    let front = woff_body(tables, n - 1);
    let pad = zeros(pad4(front.len() as int) - front.len());
    lemma_append(front, pad);
    lemma_append(padded(front), stored(tables[n - 1].bytes));
    if i < n - 1 {
        lemma_body_slice(tables, n - 1, i);
        let at = padded(woff_body(tables, i)).len() as int;
        let end = at + stored(tables[i].bytes).len();
        assert(woff_body(tables, n).subrange(at, end) == padded(front).subrange(at, end));
    }
}

/// Five fields of four bytes each are read back.
proof fn lemma_entry_fields(
    data: Seq<u8>,
    base: int,
    tag: Seq<u8>,
    x: int,
    y: int,
    z: int,
    w: int,
)
    requires
        0 <= base,
        base + 20 <= data.len(),
        tag.len() == 4,
        0 <= x <= u32::MAX,
        0 <= y <= u32::MAX,
        0 <= z <= u32::MAX,
        0 <= w <= u32::MAX,
        data.subrange(base, base + 20) == tag + be32(x) + be32(y) + be32(z) + be32(w),
    ensures
        data.subrange(base, base + 4) == tag,
        u32_at(data, base + 4) == x,
        u32_at(data, base + 8) == y,
        u32_at(data, base + 12) == z,
        u32_at(data, base + 16) == w,
{
    let piece = data.subrange(base, base + 20);
    let front = tag + be32(x) + be32(y) + be32(z);
    lemma_append(front, be32(w));
    assert(data.subrange(base, base + 16) =~= piece.subrange(0, 16));
    assert(front.subrange(0, 16) =~= front);
    lemma_record_fields(data, base, tag, x, y, z);
    assert(data.subrange(base + 16, base + 20) =~= piece.subrange(16, 20));
    lemma_be32_reads_back(data, base + 16, w);
}

proof fn lemma_header_reads(flavor: int, tables: Seq<Table>)
    requires
        0 <= flavor <= u32::MAX,
        tables.len() <= u16::MAX,
    ensures
        woff_header(flavor, tables).len() == 44,
        woff_header(flavor, tables).subrange(0, 4) == woff_signature(),
        woff_header(flavor, tables).subrange(4, 8) == be32(flavor),
        woff_header(flavor, tables).subrange(12, 14) == be16(tables.len() as int),
{
    reveal(woff_header);
    let s = woff_signature();
    let f = be32(flavor);
    let l = be32(woff_len(tables));
    let n = be16(tables.len() as int);
    let r = be16(0);
    let t = be32(12 + 16 * (tables.len() as int) + body(tables).len());
    lemma_append(s, f);
    lemma_append(s + f, l);
    lemma_append(s + f + l, n);
    lemma_append(s + f + l + n, r);
    lemma_append(s + f + l + n + r, t);
    lemma_append(s + f + l + n + r + t, zeros(24));
    assert(s.subrange(0, 4) =~= s);
}

proof fn lemma_table_reads(flavor: int, tables: Seq<Table>, i: int)
    requires
        0 <= flavor <= u32::MAX,
        fits_woff(tables),
        inflate_again(tables),
        0 <= i < tables.len(),
    ensures
        woff_bytes(flavor, tables).len() == woff_len(tables),
        woff_entry(woff_bytes(flavor, tables), i).tag == tables[i].tag,
        woff_table(woff_bytes(flavor, tables), woff_entry(woff_bytes(flavor, tables), i)) == Ok::<
            Table,
            Problem,
        >(tables[i]),
{
    let n = tables.len() as int;
    let h = woff_header(flavor, tables);
    let d = woff_directory(tables, n);
    let b = woff_body(tables, n);
    let data = woff_bytes(flavor, tables);
    lemma_header_reads(flavor, tables);
    lemma_directory_slice(tables, n, i);
    lemma_body_slice(tables, n, i);
    lemma_append(h, d);
    lemma_append(h + d, b);
    let base = 44 + 20 * i;
    let table = tables[i];
    let kept = stored(table.bytes);
    assert(data.subrange(base, base + 20) =~= d.subrange(20 * i, 20 * i + 20));
    lemma_entry_fields(
        data,
        base,
        table.tag,
        woff_offset(tables, i),
        kept.len() as int,
        table.bytes.len() as int,
        table.checksum,
    );
    let at = padded(woff_body(tables, i)).len() as int;
    let start = 44 + 20 * n;
    assert(data.subrange(start + at, start + at + kept.len()) =~= b.subrange(
        at,
        at + kept.len(),
    ));
}

proof fn lemma_tables_read(flavor: int, tables: Seq<Table>, i: int)
    requires
        0 <= flavor <= u32::MAX,
        fits_woff(tables),
        inflate_again(tables),
        0 <= i <= tables.len(),
        u16_at(woff_bytes(flavor, tables), 12) == tables.len(),
    ensures
        woff_tables_from(
            woff_bytes(flavor, tables),
            woff_entries(woff_bytes(flavor, tables)),
            i,
            tables.take(i),
        ) == Ok::<Seq<Table>, Problem>(tables),
    decreases tables.len() - i,
{
    if i == tables.len() {
        assert(tables.take(i) =~= tables);
    } else {
        lemma_table_reads(flavor, tables, i);
        assert(tables.take(i + 1) =~= tables.take(i).push(tables[i]));
        lemma_tables_read(flavor, tables, i + 1);
    }
}

/// A WOFF file starts with its signature.
pub proof fn a_woff_starts_with_its_signature(flavor: int, tables: Seq<Table>)
    requires
        0 <= flavor <= u32::MAX,
        tables.len() <= u16::MAX,
    ensures
        woff_bytes(flavor, tables).len() >= 44,
        woff_bytes(flavor, tables).subrange(0, 4) == woff_signature(),
{
    lemma_header_reads(flavor, tables);
    let header = woff_header(flavor, tables);
    assert(woff_bytes(flavor, tables).subrange(0, 4) =~= header.subrange(0, 4));
}

/// A WOFF file that was written unwraps to the sfnt of the very tables it was written
/// from, contents and checksums included.
pub proof fn a_written_woff_unwraps_to_its_tables(flavor: int, tables: Seq<Table>)
    requires
        0 <= flavor <= u32::MAX,
        fits_woff(tables),
        inflate_again(tables),
    ensures
        woff_decoded(woff_bytes(flavor, tables)) == Ok::<Seq<u8>, Problem>(
            sfnt_bytes(flavor, tables),
        ),
{
    let n = tables.len() as int;
    let data = woff_bytes(flavor, tables);
    let h = woff_header(flavor, tables);
    let d = woff_directory(tables, n);
    lemma_header_reads(flavor, tables);
    lemma_directory_slice(tables, n, 0);
    lemma_table_reads(flavor, tables, 0);
    lemma_append(h, d);
    lemma_append(h + d, woff_body(tables, n));
    assert(data.subrange(0, 4) =~= h.subrange(0, 4));
    assert(data.subrange(4, 8) =~= h.subrange(4, 8));
    assert(data.subrange(12, 14) =~= h.subrange(12, 14));
    lemma_be32_reads_back(data, 4, flavor);
    lemma_be16_reads_back(data, 12, n);
    let entries = woff_entries(data);
    let keys = entries.map_values(|e: WoffEntry| tag_value(e.tag));
    assert forall|i: int, j: int| 0 <= i < j < keys.len() implies keys[i] <= keys[j] by {
        lemma_table_reads(flavor, tables, i);
        lemma_table_reads(flavor, tables, j);
        assert(tag_value(tables[i].tag) <= tag_value(tables[j].tag));
    }
    crate::sort::ordering_keeps_what_is_ordered(keys);
    assert(sorted_entries(entries) =~= entries);
    lemma_tables_read(flavor, tables, 0);
    assert(tables.take(0) =~= Seq::<Table>::empty());
}

/// True when WOFF can hold the tables that an sfnt splits into, and give them back: there is
/// at least one, none is implausibly long, the file can say how long it is, and so can the
/// sfnt say where its tables are.
pub open spec fn is_woff_sized(tables: Seq<Table>) -> bool {
    &&& 0 < tables.len()
    &&& woff_len(tables) <= u32::MAX
    &&& forall|i: int|
        0 <= i < tables.len() ==> (#[trigger] tables[i]).bytes.len() <= MAX_TABLE_LEN
            && table_offset(tables, i) <= u32::MAX
}

pub proof fn lemma_woff_sized(sfnt: Seq<u8>, flavor: int, tables: Seq<Table>)
    requires
        split_of(sfnt) == Ok::<(int, Seq<Table>), Problem>((flavor, tables)),
        is_woff_sized(tables),
    ensures
        0 <= flavor <= u32::MAX,
        fits_woff(tables),
        fits_sfnt(tables),
{
    crate::sfnt::lemma_split_count(sfnt);
    crate::sfnt::lemma_split_tags(sfnt);
    crate::sfnt::lemma_split_sizes(sfnt);
}

/// Wrapping an sfnt as WOFF and unwrapping it again loses nothing: the flavor and all tables
/// come back, contents and checksums included.
pub proof fn wrapping_as_woff_loses_nothing(sfnt: Seq<u8>, flavor: int, tables: Seq<Table>)
    requires
        split_of(sfnt) == Ok::<(int, Seq<Table>), Problem>((flavor, tables)),
        is_woff_sized(tables),
        inflate_again(tables),
    ensures
        woff_bytes(flavor, tables).subrange(0, 4) == woff_signature(),
        woff_decoded(woff_bytes(flavor, tables)) matches Ok(back) && split_of(back) == split_of(
            sfnt,
        ),
{
    lemma_woff_sized(sfnt, flavor, tables);
    a_woff_starts_with_its_signature(flavor, tables);
    a_written_woff_unwraps_to_its_tables(flavor, tables);
    crate::sfnt::an_assembled_sfnt_splits_into_its_tables(flavor, tables);
    crate::sfnt::sorting_keeps_sorted_tables(tables);
}

} // verus!
