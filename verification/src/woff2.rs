//! WOFF2 container handling.
//!
//! The whole font is a single brotli stream, and `glyf`, `loca` and `hmtx` may be stored
//! in a transformed form. Reading undoes the transforms, and is left to the `wuff` crate.
//! Writing stores every table with the null transform: the plain sfnt tables,
//! brotli-compressed.
use vstd::prelude::*;

use brotli::enc::backward_references::BrotliEncoderMode;
use brotli::enc::BrotliEncoderParams;

use crate::bytes::{
    be16, be32, lemma_be16_reads_back, lemma_be32_reads_back, pad4, push_all, push_u16, push_u32,
    u16_at, u32_at, zeros,
};
use crate::error::{read_error, unsupported, write_error, Problem, SliceError};
use crate::sfnt::{
    body, lemma_split_count, lemma_split_tags, record_at, split_of, split_sfnt, tables_view,
    tag_value, tags_ok, SfntTable, Table,
};
use crate::tables::same_but_checksum;

verus! {

pub const WOFF2_HEADER_LEN: usize = 48;

/// Offset of the `flags` field in the `head` table.
pub const HEAD_FLAGS_OFFSET: usize = 16;

/// The escape index meaning "the tag is written out in full after the flags byte".
pub const ARBITRARY_TAG: u8 = 63;

/// The 63 tags a WOFF2 table directory can name by index instead of spelling out. The
/// order is normative.
pub const KNOWN_TAGS: [[u8; 4]; 63] = [
    [0x63, 0x6d, 0x61, 0x70],  // cmap
    [0x68, 0x65, 0x61, 0x64],  // head
    [0x68, 0x68, 0x65, 0x61],  // hhea
    [0x68, 0x6d, 0x74, 0x78],  // hmtx
    [0x6d, 0x61, 0x78, 0x70],  // maxp
    [0x6e, 0x61, 0x6d, 0x65],  // name
    [0x4f, 0x53, 0x2f, 0x32],  // OS/2
    [0x70, 0x6f, 0x73, 0x74],  // post
    [0x63, 0x76, 0x74, 0x20],  // cvt
    [0x66, 0x70, 0x67, 0x6d],  // fpgm
    [0x67, 0x6c, 0x79, 0x66],  // glyf
    [0x6c, 0x6f, 0x63, 0x61],  // loca
    [0x70, 0x72, 0x65, 0x70],  // prep
    [0x43, 0x46, 0x46, 0x20],  // CFF
    [0x56, 0x4f, 0x52, 0x47],  // VORG
    [0x45, 0x42, 0x44, 0x54],  // EBDT
    [0x45, 0x42, 0x4c, 0x43],  // EBLC
    [0x67, 0x61, 0x73, 0x70],  // gasp
    [0x68, 0x64, 0x6d, 0x78],  // hdmx
    [0x6b, 0x65, 0x72, 0x6e],  // kern
    [0x4c, 0x54, 0x53, 0x48],  // LTSH
    [0x50, 0x43, 0x4c, 0x54],  // PCLT
    [0x56, 0x44, 0x4d, 0x58],  // VDMX
    [0x76, 0x68, 0x65, 0x61],  // vhea
    [0x76, 0x6d, 0x74, 0x78],  // vmtx
    [0x42, 0x41, 0x53, 0x45],  // BASE
    [0x47, 0x44, 0x45, 0x46],  // GDEF
    [0x47, 0x50, 0x4f, 0x53],  // GPOS
    [0x47, 0x53, 0x55, 0x42],  // GSUB
    [0x45, 0x42, 0x53, 0x43],  // EBSC
    [0x4a, 0x53, 0x54, 0x46],  // JSTF
    [0x4d, 0x41, 0x54, 0x48],  // MATH
    [0x43, 0x42, 0x44, 0x54],  // CBDT
    [0x43, 0x42, 0x4c, 0x43],  // CBLC
    [0x43, 0x4f, 0x4c, 0x52],  // COLR
    [0x43, 0x50, 0x41, 0x4c],  // CPAL
    [0x53, 0x56, 0x47, 0x20],  // SVG
    [0x73, 0x62, 0x69, 0x78],  // sbix
    [0x61, 0x63, 0x6e, 0x74],  // acnt
    [0x61, 0x76, 0x61, 0x72],  // avar
    [0x62, 0x64, 0x61, 0x74],  // bdat
    [0x62, 0x6c, 0x6f, 0x63],  // bloc
    [0x62, 0x73, 0x6c, 0x6e],  // bsln
    [0x63, 0x76, 0x61, 0x72],  // cvar
    [0x66, 0x64, 0x73, 0x63],  // fdsc
    [0x66, 0x65, 0x61, 0x74],  // feat
    [0x66, 0x6d, 0x74, 0x78],  // fmtx
    [0x66, 0x76, 0x61, 0x72],  // fvar
    [0x67, 0x76, 0x61, 0x72],  // gvar
    [0x68, 0x73, 0x74, 0x79],  // hsty
    [0x6a, 0x75, 0x73, 0x74],  // just
    [0x6c, 0x63, 0x61, 0x72],  // lcar
    [0x6d, 0x6f, 0x72, 0x74],  // mort
    [0x6d, 0x6f, 0x72, 0x78],  // morx
    [0x6f, 0x70, 0x62, 0x64],  // opbd
    [0x70, 0x72, 0x6f, 0x70],  // prop
    [0x74, 0x72, 0x61, 0x6b],  // trak
    [0x5a, 0x61, 0x70, 0x66],  // Zapf
    [0x53, 0x69, 0x6c, 0x66],  // Silf
    [0x47, 0x6c, 0x61, 0x74],  // Glat
    [0x47, 0x6c, 0x6f, 0x63],  // Gloc
    [0x46, 0x65, 0x61, 0x74],  // Feat
    [0x53, 0x69, 0x6c, 0x6c],  // Sill
];

/// The index of `tag` among the known tags from `i` on, or the escape index.
pub open spec fn known_index_from(tag: Seq<u8>, i: int) -> int
    decreases 63 - i,
{
    if i < 0 || i >= 63 {
        63
    } else if KNOWN_TAGS@[i]@ == tag {
        i
    } else {
        known_index_from(tag, i + 1)
    }
}

/// The index by which a directory entry names `tag`.
pub open spec fn known_index(tag: Seq<u8>) -> int {
    known_index_from(tag, 0)
}

fn find_known(tag: &[u8; 4]) -> (index: u8)
    ensures
        index == known_index(tag@),
        index <= 63,
{
    for i in 0..63usize
        invariant
            known_index(tag@) == known_index_from(tag@, i as int),
    {
        let known: [u8; 4] = KNOWN_TAGS[i];
        if known[0] == tag[0] && known[1] == tag[1] && known[2] == tag[2] && known[3] == tag[3] {
            assert(KNOWN_TAGS@[i as int]@ =~= tag@);
            return i as u8;
        }
        assert(KNOWN_TAGS@[i as int]@ != tag@) by {
            if KNOWN_TAGS@[i as int]@ == tag@ {
                assert(known@[0] == tag@[0] && known@[1] == tag@[1] && known@[2] == tag@[2]
                    && known@[3] == tag@[3]);
            }
        }
    }
    63
}

// ------------------------------------------------------------------------ compression

/// What `brotli::BrotliCompress` makes of `raw` at quality 11, window 22, in font mode;
/// nothing when it fails.
pub uninterp spec fn brotli_compressed(raw: Seq<u8>) -> Option<Seq<u8>>;

/// What `wuff::decompress_woff2` makes of `data`; nothing when it fails.
pub uninterp spec fn woff2_unpacked(data: Seq<u8>) -> Option<Seq<u8>>;

/// Calls `brotli::BrotliCompress`. What the stream holds has a name and nothing more is
/// said of it.
///
/// Quality 11 and font mode are what other encoders use, and WOFF2 exists to be small.
/// Window 22 is the largest a decoder is guaranteed to accept.
#[verifier::external_body]
fn compress(raw: &[u8]) -> (out: Option<Vec<u8>>)
    ensures
        match out {
            Some(bytes) => brotli_compressed(raw@) == Some(bytes@),
            None => brotli_compressed(raw@) is None,
        },
{
    let params = BrotliEncoderParams {
        quality: 11,
        lgwin: 22,
        mode: BrotliEncoderMode::BROTLI_MODE_FONT,
        size_hint: raw.len(),
        ..Default::default()
    };
    let mut out = Vec::new();
    brotli::BrotliCompress(&mut &raw[..], &mut out, &params).ok().map(|_| out)
}

pub open spec fn holds_tag(tables: Seq<Table>, tag: Seq<u8>) -> bool {
    exists|i: int| 0 <= i < tables.len() && (#[trigger] tables[i]).tag == tag
}

/// True when data of this size is not more than a hundred times as long as a file. The
/// decoder compares in single precision, which holds sizes up to 16 MiB exactly; above that,
/// what its rounding might add is left out.
pub open spec fn is_plausible(data: int, file: int) -> bool {
    if data <= 0x100_0000 {
        data <= 100 * file
    } else {
        data + data / 0x40_0000 + 1 <= 100 * file
    }
}

/// True when the decoder accepts a `file` that stores these tables as they are. It asks for
/// different tags, for `glyf` and `loca` together or not at all, and for an `hhea` that is
/// long enough to count the metrics. It refuses an sfnt above 128 MiB, and data that is more
/// than a hundred times as long as the file.
pub open spec fn suits_decoder(tables: Seq<Table>, file: Seq<u8>) -> bool {
    &&& forall|i: int, j: int| 0 <= i < j < tables.len() ==> tables[i].tag != tables[j].tag
    &&& holds_tag(tables, tag_of(0x67, 0x6c, 0x79, 0x66)) == holds_tag(
        tables,
        tag_of(0x6c, 0x6f, 0x63, 0x61),
    )
    &&& forall|i: int|
        0 <= i < tables.len() && (#[trigger] tables[i]).tag == tag_of(0x68, 0x68, 0x65, 0x61)
            ==> tables[i].bytes.len() >= 36
    &&& 0 < table_data(tables, tables.len() as int).len()
    &&& is_plausible(table_data(tables, tables.len() as int).len() as int, file.len() as int)
    &&& unpacked_size(tables) <= 0x800_0000
}

/// True when `back` holds the same tables, but for the checksum in `head`.
pub open spec fn same_tables(tables: Seq<Table>, back: Seq<Table>) -> bool {
    &&& back.len() == tables.len()
    &&& forall|i: int|
        0 <= i < tables.len() ==> {
            &&& (#[trigger] back[i]).tag == tables[i].tag
            &&& if is_head(tables[i].tag) {
                same_but_checksum(tables[i].bytes, back[i].bytes)
            } else {
                back[i].bytes == tables[i].bytes
            }
        }
}

/// True when `unpacked` is an sfnt of this flavor with these tables, none of which starts
/// where the file does.
pub open spec fn is_unpacked(flavor: int, tables: Seq<Table>, unpacked: Option<Seq<u8>>) -> bool {
    match unpacked {
        Some(sfnt) => match split_of(sfnt) {
            Ok((f, back)) => {
                &&& f == flavor
                &&& same_tables(tables, back)
                &&& forall|i: int|
                    0 <= i < u16_at(sfnt, 4) ==> 0 < (#[trigger] record_at(sfnt, i)).offset
            },
            Err(_) => false,
        },
        None => false,
    }
}

/// True when these tables, sorted by their tags, can stand in a WOFF2 file that is no
/// collection.
pub open spec fn are_packable(flavor: int, tables: Seq<Table>) -> bool {
    &&& 0 <= flavor <= u32::MAX
    &&& flavor != 0x7474_6366
    &&& 0 < tables.len() <= u16::MAX
    &&& tags_ok(tables)
    &&& forall|i: int, j: int|
        0 <= i < j < tables.len() ==> tag_value(tables[i].tag) <= tag_value(tables[j].tag)
    &&& forall|i: int|
        0 <= i < tables.len() && is_head((#[trigger] tables[i]).tag) ==> tables[i].bytes.len()
            >= 18
}

/// True when what was unpacked from `data` is the sfnt that was stored in it, wherever
/// `data` stores tables as they are behind a brotli stream.
pub open spec fn gives_back(data: Seq<u8>, unpacked: Option<Seq<u8>>) -> bool {
    forall|flavor: int, tables: Seq<Table>, compressed: Seq<u8>|
        #![trigger woff2_bytes(flavor, tables, compressed)]
        data == woff2_bytes(flavor, tables, compressed) && data.len() <= u32::MAX
            && brotli_compressed(table_data(tables, tables.len() as int)) == Some(compressed)
            && are_packable(flavor, tables) && suits_decoder(tables, data) ==> is_unpacked(
            flavor,
            tables,
            unpacked,
        )
}

/// Calls `wuff::decompress_woff2`, which undoes the compression and the transforms. What it
/// gives back has a name. Of a file that stores every table with the null transform, and
/// whose data went through `brotli::BrotliCompress`, it gives back the tables, sorted by
/// their tags and stored behind the directory; in `head`, it sets the checksum that stands in
/// bytes 8 to 12. Nothing is said of other files.
#[verifier::external_body]
fn unpack(data: &[u8]) -> (out: Option<Vec<u8>>)
    ensures
        match out {
            Some(bytes) => woff2_unpacked(data@) == Some(bytes@) && gives_back(
                data@,
                Some(bytes@),
            ),
            None => woff2_unpacked(data@) is None && gives_back(data@, None),
        },
{
    wuff::decompress_woff2(data).ok()
}

// ---------------------------------------------------------------------------- reading

pub open spec fn woff2_signature() -> Seq<u8> {
    seq![0x77u8, 0x4fu8, 0x46u8, 0x32u8]
}

/// True when `data` starts with these four bytes.
pub open spec fn starts_with(data: Seq<u8>, tag: Seq<u8>) -> bool {
    data.len() >= 4 && data.subrange(0, 4) == tag
}

pub(crate) fn has_prefix(data: &[u8], a: u8, b: u8, c: u8, d: u8) -> (r: bool)
    ensures
        r == starts_with(data@, seq![a, b, c, d]),
{
    if data.len() < 4 {
        return false;
    }
    let ghost tag = seq![a, b, c, d];
    let ghost head = data@.subrange(0, 4);
    assert(head[0] == data@[0] && head[1] == data@[1] && head[2] == data@[2] && head[3]
        == data@[3]);
    assert(tag[0] == a && tag[1] == b && tag[2] == c && tag[3] == d);
    let r: bool = data[0] == a && data[1] == b && data[2] == c && data[3] == d;
    assert(r ==> head =~= tag);
    r
}

pub open spec fn starts_as_woff2(data: Seq<u8>) -> bool {
    data.len() >= 48 && starts_with(data, woff2_signature())
}

/// What a written file holds: the packed tables, behind a stream that is returned.
proof fn lemma_written(sfnt: Seq<u8>, file: Seq<u8>) -> (compressed: Seq<u8>)
    requires
        woff2_encoded(sfnt) == Ok::<Seq<u8>, Problem>(file),
    ensures
        split_of(sfnt) is Ok,
        starts_as_woff2(file),
        file.len() <= u32::MAX,
        ({
            let (flavor, tables) = split_of(sfnt)->Ok_0;
            let packed = packed_tables(tables);
            &&& are_packable(flavor, packed)
            &&& brotli_compressed(table_data(packed, packed.len() as int)) == Some(compressed)
            &&& file == woff2_bytes(flavor, packed, compressed)
        }),
{
    let (flavor, tables) = split_of(sfnt)->Ok_0;
    let packed = packed_tables(tables);
    let compressed = brotli_compressed(table_data(packed, packed.len() as int))->Some_0;
    lemma_split_count(sfnt);
    lemma_split_tags(sfnt);
    lemma_header_len(flavor, packed, compressed);
    lemma_header_fields(flavor, packed, compressed);
    let header = woff2_header(flavor, packed, compressed);
    assert(file.subrange(0, 4) =~= header.subrange(0, 4));
    if flavor == 0x7474_6366 {
        assert(sfnt.subrange(0, 4) =~= tag_of(0x74, 0x74, 0x63, 0x66));
    }
    assert forall|i: int| 0 <= i < packed.len() implies {
        &&& (#[trigger] packed[i]).tag == tables[i].tag
        &&& packed[i].bytes.len() == tables[i].bytes.len()
    } by {}
    assert forall|i: int, j: int| 0 <= i < j < packed.len() implies tag_value(packed[i].tag)
        <= tag_value(packed[j].tag) by {
        assert(tag_value(tables[i].tag) <= tag_value(tables[j].tag));
    }
    compressed
}

/// A WOFF2 file that was written starts with its signature.
pub proof fn a_woff2_starts_with_its_signature(sfnt: Seq<u8>)
    requires
        woff2_encoded(sfnt) is Ok,
    ensures
        starts_as_woff2(woff2_encoded(sfnt)->Ok_0),
{
    lemma_written(sfnt, woff2_encoded(sfnt)->Ok_0);
}

/// The sfnt that a WOFF2 file encodes, given what the decoder makes of it.
pub open spec fn woff2_decoded(data: Seq<u8>, unpacked: Option<Seq<u8>>) -> Result<
    Seq<u8>,
    Problem,
> {
    if data.len() < 48 || !starts_with(data, woff2_signature()) {
        Err(Problem::Read("not a WOFF2 file"@))
    } else {
        match unpacked {
            Some(sfnt) => Ok(sfnt),
            None => Err(
                Problem::Read(
                    "the WOFF2 file could not be decoded: it is truncated, corrupt, or uses a transform this build does not implement"@,
                ),
            ),
        }
    }
}

/// True when the tables of `sfnt`, packed into `file`, are ones that the decoder accepts.
pub open spec fn comes_back(sfnt: Seq<u8>, file: Seq<u8>) -> bool {
    match split_of(sfnt) {
        Ok((_, tables)) => suits_decoder(packed_tables(tables), file),
        Err(_) => false,
    }
}

/// True when `back` is an sfnt with the flavor and the tables of `sfnt`, but for the
/// converted flag and the checksum in `head`.
pub open spec fn same_font(sfnt: Seq<u8>, back: Seq<u8>) -> bool {
    match split_of(sfnt) {
        Ok((flavor, tables)) => is_unpacked(flavor, packed_tables(tables), Some(back)),
        Err(_) => false,
    }
}

/// Turn WOFF2 bytes into the sfnt they encode. What was written comes back: every table
/// byte for byte, but for the converted flag and the checksum in `head`.
pub fn decode_woff2(data: &[u8]) -> (r: Result<Vec<u8>, SliceError>)
    ensures
        match r {
            Ok(sfnt) => woff2_decoded(data@, woff2_unpacked(data@)) == Ok::<Seq<u8>, Problem>(
                sfnt@,
            ),
            Err(e) => woff2_decoded(data@, woff2_unpacked(data@)) == Err::<Seq<u8>, Problem>(e@),
        },
        forall|sfnt: Seq<u8>| #[trigger]
            woff2_encoded(sfnt) == Ok::<Seq<u8>, Problem>(data@) && comes_back(sfnt, data@) ==> {
                &&& r is Ok
                &&& same_font(sfnt, r->Ok_0@)
            },
{
    proof {
        assert forall|sfnt: Seq<u8>| #[trigger]
            woff2_encoded(sfnt) == Ok::<Seq<u8>, Problem>(data@) && comes_back(
                sfnt,
                data@,
            ) implies starts_as_woff2(data@) by {
            lemma_written(sfnt, data@);
        }
    }
    if data.len() < WOFF2_HEADER_LEN || !has_prefix(data, 0x77, 0x4f, 0x46, 0x32) {
        return Err(read_error("not a WOFF2 file"));
    }
    let unpacked: Option<Vec<u8>> = unpack(data);
    proof {
        let bytes = woff2_unpacked(data@);
        assert forall|sfnt: Seq<u8>| #[trigger]
            woff2_encoded(sfnt) == Ok::<Seq<u8>, Problem>(data@) && comes_back(
                sfnt,
                data@,
            ) implies bytes is Some && same_font(sfnt, bytes->Some_0) by {
            let (flavor, tables) = split_of(sfnt)->Ok_0;
            let compressed = lemma_written(sfnt, data@);
            assert(is_unpacked(flavor, packed_tables(tables), bytes));
        }
    }
    match unpacked {
        Some(sfnt) => Ok(sfnt),
        None => Err(
            read_error(
                "the WOFF2 file could not be decoded: it is truncated, corrupt, or uses a transform this build does not implement",
            ),
        ),
    }
}

// ---------------------------------------------------------------------------- writing

/// The groups of seven bits of `v` that are not the last, most significant first, each
/// with the continuation bit.
pub open spec fn base128_front(v: int) -> Seq<u8>
    decreases v,
{
    if v <= 0 {
        Seq::empty()
    } else {
        base128_front(v / 128).push((v % 128 + 128) as u8)
    }
}

/// A `UIntBase128`: seven bits per byte, most significant group first, every byte but the
/// last carrying the continuation bit.
pub open spec fn base128(v: int) -> Seq<u8> {
    base128_front(v / 128).push((v % 128) as u8)
}

fn push_base128_front(out: &mut Vec<u8>, value: u32)
    ensures
        final(out)@ == old(out)@ + base128_front(value as int),
    decreases value,
{
    if value > 0 {
        push_base128_front(out, value / 128);
        out.push((value % 128 + 128) as u8);
        assert(out@ =~= old(out)@ + base128_front(value as int));
    } else {
        assert(out@ =~= old(out)@ + base128_front(value as int));
    }
}

/// Append `value` as a WOFF2 `UIntBase128`.
pub fn write_base128(out: &mut Vec<u8>, value: u32)
    ensures
        final(out)@ == old(out)@ + base128(value as int),
{
    push_base128_front(out, value / 128);
    out.push((value % 128) as u8);
    assert(out@ =~= old(out)@ + base128(value as int));
}

pub open spec fn tag_of(a: int, b: int, c: int, d: int) -> Seq<u8> {
    seq![a as u8, b as u8, c as u8, d as u8]
}

pub open spec fn is_head(tag: Seq<u8>) -> bool {
    tag == tag_of(0x68, 0x65, 0x61, 0x64)
}

pub open spec fn is_glyf_or_loca(tag: Seq<u8>) -> bool {
    tag == tag_of(0x67, 0x6c, 0x79, 0x66) || tag == tag_of(0x6c, 0x6f, 0x63, 0x61)
}

/// A `head` table with bit 11 of its flags set, "font converted", which is asked of
/// anything that repacks a font losslessly.
pub open spec fn converted_head(head: Seq<u8>) -> Seq<u8> {
    head.update(16, head[16] | 8)
}

/// Set `head.flags` bit 11.
pub fn set_converted_flag(head: &mut Vec<u8>) -> (r: Result<(), SliceError>)
    ensures
        match r {
            Ok(_) => old(head)@.len() >= 18 && final(head)@ == converted_head(old(head)@),
            Err(e) => old(head)@.len() < 18 && final(head)@ == old(head)@ && e@
                == Problem::Write("the head table is too short"@),
        },
{
    if head.len() < HEAD_FLAGS_OFFSET + 2 {
        return Err(write_error("the head table is too short"));
    }
    let high: u8 = head[HEAD_FLAGS_OFFSET];
    head.set(HEAD_FLAGS_OFFSET, high | 8);
    Ok(())
}

/// A table as the container stores it.
pub open spec fn packed_table(table: Table) -> Table {
    if is_head(table.tag) {
        Table { bytes: converted_head(table.bytes), ..table }
    } else {
        table
    }
}

pub open spec fn packed_tables(tables: Seq<Table>) -> Seq<Table> {
    tables.map_values(|t: Table| packed_table(t))
}

/// True when some `head` table is too short to hold its flags.
pub open spec fn has_short_head(tables: Seq<Table>) -> bool {
    exists|i: int|
        0 <= i < tables.len() && is_head((#[trigger] tables[i]).tag) && tables[i].bytes.len() < 18
}

/// A directory entry. Bits 6 and 7 of the flags are the transform version: the null
/// transform is version 3 for `glyf` and `loca`, and version 0 for every other table.
pub open spec fn directory_entry(table: Table) -> Seq<u8> {
    let index = known_index(table.tag);
    let version: int = if is_glyf_or_loca(table.tag) {
        3
    } else {
        0
    };
    seq![(index + 64 * version) as u8] + (if index == 63 {
        table.tag
    } else {
        Seq::empty()
    }) + base128(table.bytes.len() as int)
}

/// The first `n` directory entries.
pub open spec fn directory(tables: Seq<Table>, n: int) -> Seq<u8>
    decreases n,
{
    if n <= 0 {
        Seq::empty()
    } else {
        directory(tables, n - 1) + directory_entry(tables[n - 1])
    }
}

/// The first `n` tables, one after another.
pub open spec fn table_data(tables: Seq<Table>, n: int) -> Seq<u8>
    decreases n,
{
    if n <= 0 {
        Seq::empty()
    } else {
        table_data(tables, n - 1) + tables[n - 1].bytes
    }
}

/// What the sfnt takes that a decoder will build.
pub open spec fn unpacked_size(tables: Seq<Table>) -> int {
    12 + 16 * (tables.len() as int) + body(tables).len()
}

/// The length of the file: the header, the directory and the compressed block, padded to
/// a multiple of four.
pub open spec fn woff2_len(tables: Seq<Table>, compressed: Seq<u8>) -> int {
    pad4(48int + directory(tables, tables.len() as int).len() + compressed.len())
}

#[verifier::opaque]
pub open spec fn woff2_header(flavor: int, tables: Seq<Table>, compressed: Seq<u8>) -> Seq<u8> {
    woff2_signature() + be32(flavor) + be32(woff2_len(tables, compressed)) + be16(
        tables.len() as int,
    ) + be16(0) + be32(unpacked_size(tables)) + be32(compressed.len() as int) + zeros(24)
}

/// A WOFF2 file that holds `tables`, whose data compresses to `compressed`.
pub open spec fn woff2_bytes(flavor: int, tables: Seq<Table>, compressed: Seq<u8>) -> Seq<u8> {
    let front = woff2_header(flavor, tables, compressed) + directory(tables, tables.len() as int)
        + compressed;
    front + zeros(woff2_len(tables, compressed) - front.len())
}

pub open spec fn too_large() -> Problem {
    Problem::Write("the font is too large for a WOFF2 container"@)
}

/// The file for packed tables, given what their data compresses to.
pub open spec fn woff2_file(flavor: int, tables: Seq<Table>, compressed: Option<Seq<u8>>) -> Result<
    Seq<u8>,
    Problem,
> {
    if unpacked_size(tables) > u32::MAX {
        Err(too_large())
    } else {
        match compressed {
            None => Err(Problem::Write("brotli compression failed"@)),
            Some(compressed) => if woff2_len(tables, compressed) > u32::MAX {
                Err(too_large())
            } else {
                Ok(woff2_bytes(flavor, tables, compressed))
            },
        }
    }
}

/// The WOFF2 file for an sfnt.
pub open spec fn woff2_encoded(sfnt: Seq<u8>) -> Result<Seq<u8>, Problem> {
    if starts_with(sfnt, tag_of(0x74, 0x74, 0x63, 0x66)) {
        Err(Problem::Unsupported("writing a font collection as WOFF2 is not supported"@))
    } else {
        match split_of(sfnt) {
            Err(p) => Err(p),
            Ok((flavor, tables)) => if tables.len() == 0 {
                Err(Problem::Write("the font has no tables"@))
            } else if has_short_head(tables) {
                Err(Problem::Write("the head table is too short"@))
            } else {
                let packed = packed_tables(tables);
                woff2_file(
                    flavor,
                    packed,
                    brotli_compressed(table_data(packed, packed.len() as int)),
                )
            },
        }
    }
}

fn tag_is(tag: &[u8; 4], a: u8, b: u8, c: u8, d: u8) -> (r: bool)
    ensures
        r == (tag@ == seq![a, b, c, d]),
{
    let ghost other = seq![a, b, c, d];
    assert(other[0] == a && other[1] == b && other[2] == c && other[3] == d);
    let r: bool = tag[0] == a && tag[1] == b && tag[2] == c && tag[3] == d;
    assert(r ==> tag@ =~= other);
    r
}

/// Set the converted flag in every `head` table.
fn pack_tables(tables: &mut Vec<SfntTable>) -> (r: Result<(), SliceError>)
    ensures
        match r {
            Ok(_) => !has_short_head(tables_view(old(tables)@)) && tables_view(final(tables)@)
                == packed_tables(tables_view(old(tables)@)),
            Err(e) => has_short_head(tables_view(old(tables)@)) && e@ == Problem::Write(
                "the head table is too short"@,
            ),
        },
{
    let ghost all = tables_view(tables@);
    let count: usize = tables.len();
    for i in 0..count
        invariant
            count == tables@.len(),
            all.len() == tables@.len(),
            all == tables_view(old(tables)@),
            forall|k: int| 0 <= k < i ==> (#[trigger] tables@[k])@ == packed_table(all[k]),
            forall|k: int| i <= k < all.len() ==> (#[trigger] tables@[k])@ == all[k],
            forall|k: int|
                0 <= k < i ==> !(is_head((#[trigger] all[k]).tag) && all[k].bytes.len() < 18),
    {
        assert(tables@[i as int]@ == all[i as int]);
        let tag: [u8; 4] = tables[i].tag;
        if tag_is(&tag, 0x68, 0x65, 0x61, 0x64) {
            assert(is_head(all[i as int].tag));
            let checksum: u32 = tables[i].checksum;
            let mut bytes: Vec<u8> = crate::bytes::copy(tables[i].bytes.as_slice());
            match set_converted_flag(&mut bytes) {
                Ok(_) => {},
                Err(e) => {
                    return Err(e);
                },
            }
            tables.set(i, SfntTable { tag, checksum, bytes });
        }
    }
    assert(tables_view(tables@) =~= packed_tables(all));
    Ok(())
}

/// Append one directory entry.
fn push_directory_entry(out: &mut Vec<u8>, table: &SfntTable)
    requires
        table.bytes@.len() <= u32::MAX,
    ensures
        final(out)@ == old(out)@ + directory_entry(table@),
{
    let ghost before = out@;
    let index: u8 = find_known(&table.tag);
    let null_is_three: bool = tag_is(&table.tag, 0x67, 0x6c, 0x79, 0x66) || tag_is(
        &table.tag,
        0x6c,
        0x6f,
        0x63,
        0x61,
    );
    let version: u8 = if null_is_three {
        3
    } else {
        0
    };
    out.push(index + 64 * version);
    if index == ARBITRARY_TAG {
        push_all(out, table.tag.as_slice());
    }
    write_base128(out, table.bytes.len() as u32);
    assert(out@ =~= before + directory_entry(table@));
}

fn write_header(
    flavor: u32,
    num_tables: u16,
    length: u32,
    sfnt_size: u32,
    compressed_len: u32,
    Ghost(tables): Ghost<Seq<Table>>,
    Ghost(compressed): Ghost<Seq<u8>>,
) -> (out: Vec<u8>)
    requires
        num_tables == tables.len(),
        length == woff2_len(tables, compressed),
        sfnt_size == unpacked_size(tables),
        compressed_len == compressed.len(),
    ensures
        out@ == woff2_header(flavor as int, tables, compressed),
{
    let mut out: Vec<u8> = Vec::new();
    out.push(0x77);
    out.push(0x4f);
    out.push(0x46);
    out.push(0x32);
    assert(out@ =~= woff2_signature());
    push_u32(&mut out, flavor);
    push_u32(&mut out, length);
    push_u16(&mut out, num_tables);
    push_u16(&mut out, 0);
    push_u32(&mut out, sfnt_size);
    push_u32(&mut out, compressed_len);
    let ghost before = out@;
    // The version, and the metadata and private blocks, of which there are none.
    for i in 0..24usize
        invariant
            out@ == before + zeros(i as int),
    {
        out.push(0);
        assert(out@ =~= before + zeros(i + 1));
    }
    reveal(woff2_header);
    out
}

/// Write the file for packed tables, given what their data compresses to.
pub fn write_woff2(flavor: u32, tables: &Vec<SfntTable>, compressed: Option<Vec<u8>>) -> (r: Result<
    Vec<u8>,
    SliceError,
>)
    requires
        tables@.len() <= u16::MAX,
        forall|i: int| 0 <= i < tables@.len() ==> (#[trigger] tables@[i]).bytes@.len() <= u32::MAX,
    ensures
        ({
            let packed = match compressed {
                Some(bytes) => Some(bytes@),
                None => None,
            };
            match r {
                Ok(file) => woff2_file(flavor as int, tables_view(tables@), packed) == Ok::<
                    Seq<u8>,
                    Problem,
                >(file@),
                Err(e) => woff2_file(flavor as int, tables_view(tables@), packed) == Err::<
                    Seq<u8>,
                    Problem,
                >(e@),
            }
        }),
{
    let ghost all = tables_view(tables@);
    let mut directory_bytes: Vec<u8> = Vec::new();
    let mut sfnt_size: u64 = 12 + 16 * tables.len() as u64;
    assert(body(all.take(0)) =~= Seq::<u8>::empty());
    for i in 0..tables.len()
        invariant
            all == tables_view(tables@),
            tables@.len() <= u16::MAX,
            forall|k: int|
                0 <= k < tables@.len() ==> (#[trigger] tables@[k]).bytes@.len() <= u32::MAX,
            directory_bytes@ == directory(all, i as int),
            sfnt_size == 12 + 16 * (all.len() as int) + body(all.take(i as int)).len(),
            sfnt_size <= 12 + 16 * 0xffff + i * 0x1_0000_0004,
    {
        assert(all[i as int] == tables@[i as int]@);
        assert(tables@[i as int].bytes@.len() <= u32::MAX);
        push_directory_entry(&mut directory_bytes, &tables[i]);
        let padded: u64 = (tables[i].bytes.len() as u64 + 3) / 4 * 4;
        assert(all.take(i + 1).drop_last() =~= all.take(i as int));
        sfnt_size = sfnt_size + padded;
    }
    assert(all.take(all.len() as int) =~= all);
    if sfnt_size > 0xffff_ffff {
        return Err(write_error("the font is too large for a WOFF2 container"));
    }
    let compressed: Vec<u8> = match compressed {
        Some(compressed) => compressed,
        None => {
            return Err(write_error("brotli compression failed"));
        },
    };
    // Each part alone is checked first, so that the sum cannot overflow.
    if compressed.len() > 0xffff_ffff || directory_bytes.len() > 0xffff_ffff {
        return Err(write_error("the font is too large for a WOFF2 container"));
    }
    let unpadded: u64 = 48 + directory_bytes.len() as u64 + compressed.len() as u64;
    let length: u64 = (unpadded + 3) / 4 * 4;
    if length > 0xffff_ffff {
        return Err(write_error("the font is too large for a WOFF2 container"));
    }
    let mut out: Vec<u8> = write_header(
        flavor,
        tables.len() as u16,
        length as u32,
        sfnt_size as u32,
        compressed.len() as u32,
        Ghost(all),
        Ghost(compressed@),
    );
    push_all(&mut out, directory_bytes.as_slice());
    push_all(&mut out, compressed.as_slice());
    let ghost front = out@;
    proof {
        lemma_header_len(flavor as int, all, compressed@);
    }
    while (out.len() as u64) < length
        invariant
            front.len() <= out@.len() <= length,
            out@ == front + zeros(out@.len() - front.len()),
        decreases length - out@.len(),
    {
        out.push(0);
        assert(out@ =~= front + zeros(out@.len() - front.len()));
    }
    Ok(out)
}

proof fn lemma_header_len(flavor: int, tables: Seq<Table>, compressed: Seq<u8>)
    ensures
        woff2_header(flavor, tables, compressed).len() == 48,
{
    reveal(woff2_header);
}

/// Wrap an sfnt in a WOFF2 container, storing every table with the null transform.
pub fn encode_woff2(sfnt: &[u8]) -> (r: Result<Vec<u8>, SliceError>)
    ensures
        match r {
            Ok(file) => woff2_encoded(sfnt@) == Ok::<Seq<u8>, Problem>(file@),
            Err(e) => woff2_encoded(sfnt@) == Err::<Seq<u8>, Problem>(e@),
        },
{
    if has_prefix(sfnt, 0x74, 0x74, 0x63, 0x66) {
        return Err(unsupported("writing a font collection as WOFF2 is not supported"));
    }
    let (flavor, mut tables): (u32, Vec<SfntTable>) = match split_sfnt(sfnt) {
        Ok(parts) => parts,
        Err(e) => {
            return Err(e);
        },
    };
    if tables.len() == 0 {
        return Err(write_error("the font has no tables"));
    }
    let ghost split = tables_view(tables@);
    match pack_tables(&mut tables) {
        Ok(_) => {},
        Err(e) => {
            return Err(e);
        },
    }
    let ghost packed = tables_view(tables@);
    proof {
        lemma_split_count(sfnt@);
        crate::sfnt::lemma_split_sizes(sfnt@);
        assert forall|i: int| 0 <= i < tables@.len() implies (#[trigger] tables@[i]).bytes@.len()
            <= u32::MAX by {
            assert(packed[i] == tables@[i]@);
            assert(packed[i] == packed_table(split[i]));
            assert(split[i].bytes.len() <= u32::MAX);
        }
    }
    let mut raw: Vec<u8> = Vec::new();
    for i in 0..tables.len()
        invariant
            packed == tables_view(tables@),
            raw@ == table_data(packed, i as int),
    {
        assert(packed[i as int] == tables@[i as int]@);
        push_all(&mut raw, tables[i].bytes.as_slice());
    }
    let compressed: Option<Vec<u8>> = compress(raw.as_slice());
    write_woff2(flavor, &tables, compressed)
}

// ------------------------------------------------------------------------------- laws

/// The value of the groups of seven bits from `i` on, after `value`, and where they end:
/// behind the first byte without the continuation bit. There is none when the data ends
/// before.
pub open spec fn base128_value(data: Seq<u8>, i: int, value: int) -> Option<(int, int)>
    decreases data.len() - i,
{
    if i < 0 || i >= data.len() {
        None
    } else if data[i] >= 128 {
        base128_value(data, i + 1, value * 128 + (data[i] - 128))
    } else {
        Some((value * 128 + data[i], i + 1))
    }
}

proof fn lemma_front_reads(v: int, tail: Seq<u8>)
    requires
        v >= 0,
    ensures
        base128_value(base128_front(v) + tail, 0, 0) == base128_value(
            base128_front(v) + tail,
            base128_front(v).len() as int,
            v,
        ),
        base128_front(v).len() > 0 ==> base128_front(v)[0] > 128,
    decreases v,
{
    if v > 0 {
        let front = base128_front(v / 128);
        let byte = (v % 128 + 128) as u8;
        let all = base128_front(v) + tail;
        lemma_front_reads(v / 128, seq![byte] + tail);
        assert(all =~= front + (seq![byte] + tail));
        assert(all[front.len() as int] == byte);
        assert(v / 128 * 128 + (byte - 128) == v);
        if front.len() == 0 {
            assert(v / 128 == 0) by {
                if v / 128 > 0 {
                    assert(base128_front(v / 128).len() > 0);
                }
            }
        }
    }
}

/// Every value is read back as it was written, whatever follows it, and no encoding
/// begins with a group of zeros.
pub proof fn base128_round_trips(v: int, tail: Seq<u8>)
    requires
        v >= 0,
    ensures
        base128_value(base128(v) + tail, 0, 0) == Some((v, base128(v).len() as int)),
        base128(v)[0] != 0x80,
{
    let front = base128_front(v / 128);
    let byte = (v % 128) as u8;
    let all = base128(v) + tail;
    lemma_front_reads(v / 128, seq![byte] + tail);
    assert(all =~= front + (seq![byte] + tail));
    assert(all[front.len() as int] == byte);
    assert(v / 128 * 128 + byte == v);
    if front.len() > 0 {
        assert(base128(v)[0] == front[0]);
    }
}

/// A written file is a multiple of four bytes long, its header says how long it is, how
/// many tables it holds, what the sfnt will take and how long the compressed block is, and
/// that block stands right behind the directory.
#[verifier::rlimit(60)]
#[verifier::spinoff_prover]
pub proof fn the_header_says_what_the_file_holds(
    flavor: int,
    tables: Seq<Table>,
    compressed: Seq<u8>,
)
    requires
        0 <= flavor <= u32::MAX,
        tables.len() <= u16::MAX,
        unpacked_size(tables) <= u32::MAX,
        woff2_len(tables, compressed) <= u32::MAX,
    ensures
        ({
            let file = woff2_bytes(flavor, tables, compressed);
            let dir = directory(tables, tables.len() as int);
            &&& file.len() % 4 == 0
            &&& file.subrange(0, 4) == woff2_signature()
            &&& u32_at(file, 4) == flavor
            &&& u32_at(file, 8) == file.len()
            &&& u16_at(file, 12) == tables.len()
            &&& u32_at(file, 16) == unpacked_size(tables)
            &&& u32_at(file, 20) == compressed.len()
            &&& file.subrange(48, 48int + dir.len()) == dir
            &&& file.subrange(48int + dir.len(), 48int + dir.len() + compressed.len())
                == compressed
        }),
{
    let n = tables.len() as int;
    let dir = directory(tables, n);
    let h = woff2_header(flavor, tables, compressed);
    let file = woff2_bytes(flavor, tables, compressed);
    lemma_header_len(flavor, tables, compressed);
    lemma_header_fields(flavor, tables, compressed);
    lemma_body_nonneg(tables);
    assert(file.subrange(0, 4) =~= h.subrange(0, 4));
    assert(file.subrange(4, 8) =~= h.subrange(4, 8));
    assert(file.subrange(8, 12) =~= h.subrange(8, 12));
    assert(file.subrange(12, 14) =~= h.subrange(12, 14));
    assert(file.subrange(16, 20) =~= h.subrange(16, 20));
    assert(file.subrange(20, 24) =~= h.subrange(20, 24));
    assert(file.subrange(48, 48int + dir.len()) =~= dir);
    assert(file.subrange(48int + dir.len(), 48int + dir.len() + compressed.len()) =~= compressed);
    lemma_be32_reads_back(file, 4, flavor);
    lemma_be32_reads_back(file, 8, woff2_len(tables, compressed));
    lemma_be16_reads_back(file, 12, n);
    lemma_be32_reads_back(file, 16, unpacked_size(tables));
    lemma_be32_reads_back(file, 20, compressed.len() as int);
}

proof fn lemma_header_fields(flavor: int, tables: Seq<Table>, compressed: Seq<u8>)
    ensures
        ({
            let h = woff2_header(flavor, tables, compressed);
            &&& h.subrange(0, 4) == woff2_signature()
            &&& h.subrange(4, 8) == be32(flavor)
            &&& h.subrange(8, 12) == be32(woff2_len(tables, compressed))
            &&& h.subrange(12, 14) == be16(tables.len() as int)
            &&& h.subrange(16, 20) == be32(unpacked_size(tables))
            &&& h.subrange(20, 24) == be32(compressed.len() as int)
        }),
{
    reveal(woff2_header);
    let h = woff2_header(flavor, tables, compressed);
    lemma_header_len(flavor, tables, compressed);
    assert(h.subrange(0, 4) =~= woff2_signature());
    assert(h.subrange(4, 8) =~= be32(flavor));
    assert(h.subrange(8, 12) =~= be32(woff2_len(tables, compressed)));
    assert(h.subrange(12, 14) =~= be16(tables.len() as int));
    assert(h.subrange(16, 20) =~= be32(unpacked_size(tables)));
    assert(h.subrange(20, 24) =~= be32(compressed.len() as int));
}

proof fn lemma_body_nonneg(tables: Seq<Table>)
    ensures
        unpacked_size(tables) >= 0,
{
}

/// The directory entry at the start of `data`: the tag, the transform version, the length,
/// and where the entry ends.
pub open spec fn read_entry(data: Seq<u8>) -> Option<(Seq<u8>, int, int, int)> {
    let index = data[0] as int % 64;
    let at: int = if index == 63 {
        5
    } else {
        1
    };
    let tag = if index == 63 {
        data.subrange(1, 5)
    } else {
        KNOWN_TAGS@[index]@
    };
    match base128_value(data.skip(at), 0, 0) {
        Some((length, end)) => Some((tag, data[0] as int / 64, length, at + end)),
        None => None,
    }
}

proof fn lemma_known_index(tag: Seq<u8>, i: int)
    requires
        0 <= i <= 63,
    ensures
        i <= known_index_from(tag, i) <= 63,
        known_index_from(tag, i) < 63 ==> KNOWN_TAGS@[known_index_from(tag, i)]@ == tag,
    decreases 63 - i,
{
    if i < 63 && KNOWN_TAGS@[i]@ != tag {
        lemma_known_index(tag, i + 1);
    }
}

/// A directory entry reads back as the tag and the length of its table, with the null
/// transform, whatever follows it.
pub proof fn a_directory_entry_reads_back(table: Table, tail: Seq<u8>)
    requires
        table.tag.len() == 4,
    ensures
        read_entry(directory_entry(table) + tail) == Some(
            (
                table.tag,
                if is_glyf_or_loca(table.tag) {
                    3int
                } else {
                    0int
                },
                table.bytes.len() as int,
                directory_entry(table).len() as int,
            ),
        ),
{
    lemma_known_index(table.tag, 0);
    let index = known_index(table.tag);
    let number = base128(table.bytes.len() as int);
    let entry = directory_entry(table);
    let data = entry + tail;
    base128_round_trips(table.bytes.len() as int, tail);
    if index == 63 {
        assert(data.subrange(1, 5) =~= table.tag);
        assert(data.skip(5) =~= number + tail);
    } else {
        assert(data.skip(1) =~= number + tail);
    }
    assert(data[0] == entry[0]);
}

} // verus!
