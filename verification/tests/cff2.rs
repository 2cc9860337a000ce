//! The CFF2 table: its numbers, its DICTs, its charstrings and its variation store.
use read_fonts::FontRead;
use slice_core::axes::{AxisLimit, AxisSpec};
use slice_core::cff2::charstring::{
    rewrite, subr_bias, Context, Resolved, Rewritten, BLEND, CALLSUBR, CNTRMASK, ESCAPE, HINTMASK,
    HSTEM, HSTEMHM, VSINDEX, VSTEM, VSTEMHM,
};
use slice_core::cff2::dict::{parse_dict, write_dict_number, write_dict_operator, DictNumber};
use slice_core::cff2::instance::{
    build_var_store, instantiate, read_regions, rewrite_font_dict, rewrite_glyph,
};
use slice_core::cff2::num::{
    offset_size, read_charstring_number, write_charstring_number, write_dict_integer,
    write_dict_offset, write_index, write_offset,
};
use slice_core::cff2::private::{rewrite_private_dict, BlendedValue, PrivateRewritten};
use slice_core::cff2::read::{
    index_items, private_dict_without_subrs, read, read_font_dict, top_dict_extra,
};
use slice_core::cff2::table::{
    index_length, Cff2Builder, FontDictBuilder, CHARSTRINGS, FD_ARRAY, PRIVATE_VSINDEX, SUBRS,
};
use slice_core::coord::Coord;
use slice_core::error::SliceError;
use slice_core::partial::AxisTent;
use slice_core::regions::{restricted_remap, RegionList, Share};
use slice_core::stat::AxisPlan;
use slice_core::varstore::{pack, read_subtables, rebuild, PackedData, Subtable};

const ONE: f64 = 65536.0;

fn units(value: f64) -> i64 {
    (value * ONE).floor() as i64
}

fn number(value: f64, out: &mut Vec<u8>) {
    write_charstring_number(units(value), out);
}

fn read_number(data: &[u8], pos: usize) -> Result<(f64, usize), SliceError> {
    let (value, len) = read_charstring_number(data, pos)?;
    Ok((value as f64 / ONE, len))
}

fn hex(text: &str) -> Vec<u8> {
    (0..text.len())
        .step_by(2)
        .map(|i| u8::from_str_radix(&text[i..i + 2], 16).unwrap())
        .collect()
}

// ------------------------------------------------------------------------------ numbers

fn round_trip_charstring(value: f64) -> f64 {
    let mut bytes = Vec::new();
    number(value, &mut bytes);
    let (read, len) = read_number(&bytes, 0).unwrap();
    assert_eq!(len, bytes.len(), "{value} left bytes unread");
    read
}

#[test]
fn charstring_integers_round_trip_in_every_form() {
    // One per encoding band, plus the boundaries between them.
    for value in [
        0.0, 1.0, -1.0, 107.0, -107.0, 108.0, -108.0, 1131.0, -1131.0, 1132.0, -1132.0, 32767.0,
        -32768.0,
    ] {
        assert_eq!(round_trip_charstring(value), value, "{value}");
    }
}

#[test]
fn charstring_integers_use_the_shortest_encoding() {
    let encode = |v: f64| {
        let mut out = Vec::new();
        number(v, &mut out);
        out
    };
    assert_eq!(encode(0.0), vec![139]);
    assert_eq!(encode(107.0), vec![246]);
    assert_eq!(encode(108.0), vec![247, 0]);
    assert_eq!(encode(-108.0), vec![251, 0]);
    assert_eq!(encode(1131.0), vec![250, 255]);
    assert_eq!(encode(1132.0), vec![28, 0x04, 0x6c]);
}

#[test]
fn fractions_take_the_16_16_form_and_survive_it() {
    let mut bytes = Vec::new();
    number(0.5, &mut bytes);
    assert_eq!(bytes, vec![255, 0x00, 0x00, 0x80, 0x00]);
    assert_eq!(round_trip_charstring(0.5), 0.5);
    assert_eq!(round_trip_charstring(-0.5), -0.5);

    // One ulp of 16.16, the smallest value the format distinguishes from zero.
    let ulp = 1.0 / 65536.0;
    assert_eq!(round_trip_charstring(ulp), ulp);
    assert_eq!(round_trip_charstring(-ulp), -ulp);

    // A fraction that has no exact 16.16 representation comes back within one ulp.
    let third = 1.0 / 3.0;
    assert!((round_trip_charstring(third) - third).abs() <= ulp);
}

#[test]
fn a_fraction_beyond_the_16_16_range_saturates_rather_than_wrapping() {
    // Wrapping would put the coordinate on the far side of the glyph, which is a much worse
    // answer than clamping to the largest value the format has.
    assert!(round_trip_charstring(40000.5) > 32000.0);
    assert!(round_trip_charstring(-40000.5) < -32000.0);
}

#[test]
fn a_truncated_operand_is_an_error_not_a_panic() {
    assert!(read_charstring_number(&[28, 0], 0).is_err());
    assert!(read_charstring_number(&[255, 0, 0], 0).is_err());
    assert!(read_charstring_number(&[247], 0).is_err());
    assert!(read_charstring_number(&[], 0).is_err());
    // 31 is neither an operand nor a value this function should be handed.
    assert!(read_charstring_number(&[31], 0).is_err());
}

/// The value of a DICT operand.
fn operand(n: &DictNumber) -> f64 {
    match n {
        DictNumber::Integer(v) => f64::from(*v),
        DictNumber::Real(text) => text.parse().unwrap(),
    }
}

#[test]
fn dict_numbers_round_trip() {
    for value in [0i32, 1, -1, 107, 108, -108, 1131, -1131, 32767, -32768, 100_000] {
        let mut bytes = Vec::new();
        write_dict_integer(value, &mut bytes);
        let entries = parse_dict(&[bytes.clone(), vec![17]].concat()).unwrap();
        assert_eq!(entries.len(), 1);
        assert_eq!(entries[0].operands, vec![DictNumber::Integer(value)], "{value}");
    }
}

#[test]
fn the_cff2_only_operators_are_read_as_operators() {
    // A Top DICT: FDArray 167, CharStrings 49, VariationStore 17. Operator 24 sits in the
    // range CFF 1.0 reserved.
    let data = [0xf7, 0x3b, 0x0c, 0x24, 0xbc, 0x11, 0x9c, 0x18];
    let entries = parse_dict(&data).unwrap();
    assert_eq!(entries.len(), 3);
    assert_eq!((entries[0].operator, operand(&entries[0].operands[0])), (1236, 167.0));
    assert_eq!((entries[1].operator, operand(&entries[1].operands[0])), (17, 49.0));
    assert_eq!((entries[2].operator, operand(&entries[2].operands[0])), (24, 17.0));
}

#[test]
fn a_dict_real_is_read_as_binary_coded_decimal() {
    // -2.25E-3 written as nibbles: e 2 a 2 5 c 3 f
    let data = [30u8, 0xe2, 0xa2, 0x5c, 0x3f, 12, 7];
    let entries = parse_dict(&data).unwrap();
    assert_eq!(entries[0].operator, 1207);
    assert!((operand(&entries[0].operands[0]) - -2.25e-3).abs() < 1e-12);
}

#[test]
fn a_dict_entry_keeps_its_own_bytes() {
    // The raw form is what lets an entry be copied through without being re-encoded.
    let data = [30u8, 0xe2, 0xa2, 0x5c, 0x3f, 12, 7, 0x8b, 17];
    let entries = parse_dict(&data).unwrap();
    assert_eq!(entries[0].raw, &data[0..7]);
    assert_eq!(entries[1].raw, &data[7..9]);
}

#[test]
fn a_malformed_dict_is_an_error_not_a_panic() {
    // Operands with no operator to close them.
    assert!(parse_dict(&[0x8b]).is_err());
    // A two-byte operator cut in half.
    assert!(parse_dict(&[0x8b, 12]).is_err());
    // A real number with no terminator.
    assert!(parse_dict(&[30, 0x12]).is_err());
    // The reserved nibble.
    assert!(parse_dict(&[30, 0xd0]).is_err());
    // A reserved operand byte.
    assert!(parse_dict(&[31, 17]).is_err());
}

#[test]
fn a_fractional_dict_value_becomes_a_binary_coded_decimal_real() {
    for value in [0.039625, -2.25, 1.5, -0.5] {
        let mut bytes = Vec::new();
        write_dict_number(&DictNumber::Real(format!("{value}")), &mut bytes);
        assert_eq!(bytes[0], 30, "{value} should use the real encoding");
        let entries = parse_dict(&[bytes, vec![12, 9]].concat()).unwrap();
        assert_eq!(operand(&entries[0].operands[0]), value, "{value}");
    }
    // Whole numbers keep the integer encoding, which is shorter and exact.
    let mut bytes = Vec::new();
    write_dict_number(&DictNumber::Integer(400), &mut bytes);
    assert_ne!(bytes[0], 30);
}

#[test]
fn an_empty_index_is_a_bare_count() {
    assert_eq!(write_index(&vec![]), vec![0, 0, 0, 0]);
}

#[test]
fn index_offsets_widen_with_the_data() {
    let one_byte = write_index(&vec![vec![0u8; 10], vec![1u8; 10]]);
    assert_eq!(one_byte[4], 1);
    assert_eq!(&one_byte[5..8], &[1, 11, 21]);

    let two_byte = write_index(&vec![vec![0u8; 300]]);
    assert_eq!(two_byte[4], 2);
    assert_eq!(&two_byte[5..9], &[0, 1, 1, 45]);

    let three_byte = write_index(&vec![vec![0u8; 0x10000]]);
    assert_eq!(three_byte[4], 3);

    let four_byte = write_index(&vec![vec![0u8; 0x100_0000]]);
    assert_eq!(four_byte[4], 4);
}

#[test]
fn an_index_reads_back_through_read_fonts() {
    // The point of this one is that the offsets are one-based and the data begins where the
    // last offset says: an off-by-one here is invisible in isolation and shifts every
    // charstring in the font.
    let items = vec![vec![1u8, 2, 3], vec![], vec![4u8], vec![5u8; 400]];
    let bytes = write_index(&items);
    let index = read_fonts::ps::cff::index::Index::new(&bytes, true).unwrap();
    assert_eq!(index.count(), 4);
    for (i, item) in items.iter().enumerate() {
        assert_eq!(index.get(i).unwrap(), item.as_slice(), "item {i}");
    }
    assert_eq!(index.size_in_bytes().unwrap(), bytes.len());
    assert_eq!(index_length(&items.iter().map(|i| i.len()).collect()), bytes.len());
    assert_eq!(index_length(&vec![]), write_index(&vec![]).len());
}

#[test]
fn offsets_have_a_fixed_width() {
    let mut out = Vec::new();
    write_dict_offset(1, &mut out);
    write_dict_operator(1236, &mut out);
    write_dict_operator(24, &mut out);
    assert_eq!(out, vec![29, 0, 0, 0, 1, 12, 36, 24]);
    assert_eq!((offset_size(255), offset_size(256), offset_size(0x1_0000)), (1, 2, 3));
    let mut out = Vec::new();
    write_offset(&mut out, 0x0102, 3);
    assert_eq!(out, vec![0, 1, 2]);
}

// -------------------------------------------------------------------------- charstrings

/// Decode a charstring back into numbers and operator names, for readable assertions.
fn disassemble(data: &[u8]) -> Vec<String> {
    let mut out = Vec::new();
    let mut pos = 0;
    let mut stems = 0usize;
    let mut operands = 0usize;
    while pos < data.len() {
        let b0 = data[pos];
        if b0 >= 32 || b0 == 28 {
            let (value, len) = read_number(data, pos).unwrap();
            out.push(format!("{value}"));
            operands += 1;
            pos += len;
            continue;
        }
        pos += 1;
        match b0 {
            ESCAPE => {
                out.push(format!("esc{}", data[pos]));
                pos += 1;
            },
            HINTMASK | CNTRMASK => {
                stems += operands / 2;
                out.push(if b0 == HINTMASK { "hintmask" } else { "cntrmask" }.into());
                let len = stems.div_ceil(8).max(1);
                out.push(format!("mask{:02x?}", &data[pos..pos + len]));
                pos += len;
            },
            HSTEM | VSTEM | HSTEMHM | VSTEMHM => {
                stems += operands / 2;
                out.push(format!("op{b0}"));
            },
            _ => out.push(format!("op{b0}")),
        }
        operands = 0;
    }
    out
}

/// How the deltas of one subtable map onto the new design space: the share of each that
/// applies unconditionally, and how much of it each surviving region carries.
struct Remap {
    gain: Vec<f64>,
    coeff: Vec<Vec<f64>>,
    regions: usize,
}

impl Remap {
    /// One region that is pinned at this scalar.
    fn pinned(scalar: f64) -> Remap {
        Remap { gain: vec![scalar], coeff: vec![vec![]], regions: 0 }
    }

    /// One region that stays, with its deltas scaled.
    fn scaling(scale: f64) -> Remap {
        Remap { gain: vec![0.0], coeff: vec![vec![scale]], regions: 1 }
    }

    fn none() -> Remap {
        Remap { gain: vec![], coeff: vec![], regions: 0 }
    }

    fn apply(&self, row: &[f64]) -> (f64, Vec<f64>) {
        let mut new = vec![0.0; self.regions];
        let mut gain = 0.0;
        for (i, delta) in row.iter().enumerate() {
            gain += delta * self.gain[i];
            for (slot, c) in new.iter_mut().zip(&self.coeff[i]) {
                *slot += delta * c;
            }
        }
        (gain, new)
    }
}

/// Rewrite a charstring, resolving its blends one after the other.
fn rewrite_with(
    source: &[u8],
    subrs: &Vec<Vec<u8>>,
    remaps: &[Remap],
) -> Result<Vec<u8>, SliceError> {
    let counts: Vec<usize> = remaps.iter().map(|r| r.gain.len()).collect();
    let mut resolved: Vec<Resolved> = Vec::new();
    loop {
        let context = Context {
            global_subrs: subrs,
            local_subrs: subrs,
            region_counts: &counts,
            initial_vsindex: 0,
            resolved: &resolved,
        };
        match rewrite(source, &context)? {
            Rewritten::Done(bytes) => return Ok(bytes),
            Rewritten::NeedsBlend { vsindex, row } => {
                let row: Vec<f64> = row.iter().map(|v| *v as f64 / ONE).collect();
                let (gain, deltas) = remaps[usize::from(vsindex)].apply(&row);
                resolved.push(Resolved {
                    gain: gain.round_ties_even() as i32,
                    deltas: deltas.iter().map(|d| (d + 0.5).floor() as i32).collect(),
                });
            },
        }
    }
}

#[test]
fn a_charstring_with_no_blends_comes_through_byte_for_byte() {
    // No blends, so nothing should move.
    let source = hex("bd16f888f950fc8806d14515f7fcfcc4fbfc06");
    assert_eq!(rewrite_with(&source, &vec![], &[Remap::pinned(0.6)]).unwrap(), source);
}

#[test]
fn pinning_resolves_a_blend_into_a_plain_number() {
    // 90 with a delta of 130 on a single region. At a scalar of 0.6 the stem is 90 + 78.
    let source = hex("e516e5f7168c10f95031fb168c1006");
    let out = rewrite_with(&source, &vec![], &[Remap::pinned(0.6)]).unwrap();
    assert_eq!(disassemble(&out), ["90", "op22", "168", "700", "-168", "op6"]);
}

#[test]
fn a_multi_value_blend_resolves_every_value() {
    // Three values blended at once, `90 90 -90 130 130 -130 3 blend`.
    let source = hex("e516e5e531f716f716fb168e1006");
    let out = rewrite_with(&source, &vec![], &[Remap::pinned(0.6)]).unwrap();
    assert_eq!(disassemble(&out), ["90", "op22", "168", "168", "-168", "op6"]);
}

#[test]
fn narrowing_an_axis_keeps_the_blend_and_scales_its_deltas() {
    let source = hex("e516e5f7168c10f95031fb168c1006");
    let out = rewrite_with(&source, &vec![], &[Remap::scaling(0.6)]).unwrap();
    assert_eq!(
        disassemble(&out),
        ["90", "op22", "90", "78", "1", "op16", "700", "-90", "-78", "1", "op16", "op6"]
    );
}

#[test]
fn a_blend_whose_deltas_all_vanish_becomes_a_plain_number() {
    // Scaling by zero leaves nothing varying, and a blend that moves nothing would drag a
    // `vsindex` into a charstring that has no reason for one.
    let source = hex("e516e5f7168c10f95031fb168c1006");
    let out = rewrite_with(&source, &vec![], &[Remap::scaling(0.0)]).unwrap();
    assert_eq!(disassemble(&out), ["90", "op22", "90", "700", "-90", "op6"]);
}

#[test]
fn a_subroutine_is_inlined_with_its_blends_resolved() {
    // A program split in two: the caller moves, the subroutine draws.
    let subrs = vec![hex("e5f7168c10f95031fb168c1006")];
    // 107 is the bias for a small subroutine index, so operand -107 selects entry 0.
    let source = hex("e516200a");
    let out = rewrite_with(&source, &subrs, &[Remap::pinned(0.6)]).unwrap();
    assert_eq!(disassemble(&out), ["90", "op22", "168", "700", "-168", "op6"]);
}

#[test]
fn hint_operators_and_their_masks_survive() {
    // 100 20 hstemhm, 60 30 hintmask <1 byte>, 0 hmoveto.
    let mut source = Vec::new();
    number(100.0, &mut source);
    number(20.0, &mut source);
    source.push(HSTEMHM);
    number(60.0, &mut source);
    number(30.0, &mut source);
    source.push(HINTMASK);
    source.push(0b1100_0000);
    number(0.0, &mut source);
    source.push(22);
    assert_eq!(rewrite_with(&source, &vec![], &[Remap::none()]).unwrap(), source);
}

#[test]
fn vsindex_is_hoisted_to_the_head_when_the_blends_need_it() {
    // vsindex 1, then a blend against variation data 1.
    let mut source = Vec::new();
    number(1.0, &mut source);
    source.push(VSINDEX);
    number(90.0, &mut source);
    number(130.0, &mut source);
    number(1.0, &mut source);
    source.push(BLEND);
    source.push(22);
    let out = rewrite_with(&source, &vec![], &[Remap::none(), Remap::scaling(0.5)]).unwrap();
    assert_eq!(disassemble(&out), ["1", "op15", "90", "65", "1", "op16", "op22"]);
}

#[test]
fn malformed_charstrings_are_errors_rather_than_panics() {
    let remaps = [Remap::pinned(0.6)];

    // A blend claiming more operands than the stack holds.
    let mut blend_underflow = Vec::new();
    number(5.0, &mut blend_underflow);
    blend_underflow.push(BLEND);
    assert!(rewrite_with(&blend_underflow, &vec![], &remaps).is_err());

    // A blend with no count at all.
    assert!(rewrite_with(&[BLEND], &vec![], &remaps).is_err());

    // A call to a subroutine that does not exist.
    let mut missing_subr = Vec::new();
    number(0.0, &mut missing_subr);
    missing_subr.push(CALLSUBR);
    assert!(rewrite_with(&missing_subr, &vec![], &remaps).is_err());

    // A subroutine that calls itself: this must terminate.
    let self_call = vec![139 - 107, CALLSUBR];
    assert!(rewrite_with(&self_call, &vec![self_call.clone()], &remaps).is_err());

    // A hint mask running off the end of the program.
    assert!(rewrite_with(&[HINTMASK], &vec![], &remaps).is_err());

    // A truncated operand.
    assert!(rewrite_with(&[255, 0, 0], &vec![], &remaps).is_err());
}

#[test]
fn the_bias_grows_with_the_subroutines() {
    assert_eq!(
        (subr_bias(0), subr_bias(1239), subr_bias(1240), subr_bias(33899), subr_bias(33900)),
        (107, 107, 1131, 1131, 32768)
    );
}

// ------------------------------------------------------------------------ Private DICTs

#[test]
fn private_blends_are_resolved_or_kept() {
    // 400 with a delta of 20, one blend, StdHW (10), after a Subrs offset and a vsindex.
    let mut dict = Vec::new();
    write_dict_integer(7, &mut dict);
    write_dict_operator(SUBRS, &mut dict);
    write_dict_integer(0, &mut dict);
    write_dict_operator(PRIVATE_VSINDEX, &mut dict);
    write_dict_integer(400, &mut dict);
    write_dict_integer(20, &mut dict);
    write_dict_integer(1, &mut dict);
    write_dict_operator(23, &mut dict);
    write_dict_operator(10, &mut dict);
    let entries = parse_dict(&dict).unwrap();

    let counts = vec![1usize];
    match rewrite_private_dict(&entries, &counts, &vec![], false).unwrap() {
        PrivateRewritten::NeedsBlend { vsindex, base, row } => {
            assert_eq!(vsindex, 0);
            assert_eq!(base, DictNumber::Integer(400));
            assert_eq!(row, vec![DictNumber::Integer(20)]);
        },
        other => panic!("{other:?}"),
    }

    // Pinned: a plain number, and nothing that points at a store.
    let answers = vec![BlendedValue { base: DictNumber::Integer(412), deltas: vec![] }];
    let PrivateRewritten::Done(bytes) =
        rewrite_private_dict(&entries, &counts, &answers, false).unwrap()
    else {
        panic!("should be done");
    };
    let mut expected = Vec::new();
    write_dict_integer(412, &mut expected);
    write_dict_operator(10, &mut expected);
    assert_eq!(bytes, expected);

    // Narrowed: the blend stays, and so does the vsindex.
    let answers = vec![BlendedValue { base: DictNumber::Integer(400), deltas: vec![12] }];
    let PrivateRewritten::Done(bytes) =
        rewrite_private_dict(&entries, &counts, &answers, true).unwrap()
    else {
        panic!("should be done");
    };
    let mut expected = Vec::new();
    write_dict_integer(0, &mut expected);
    write_dict_operator(PRIVATE_VSINDEX, &mut expected);
    write_dict_integer(400, &mut expected);
    write_dict_integer(12, &mut expected);
    write_dict_integer(1, &mut expected);
    write_dict_operator(23, &mut expected);
    write_dict_operator(10, &mut expected);
    assert_eq!(bytes, expected);

    // A blend that no operator consumes.
    let entries = parse_dict(&[0x8b, 0x8c, 23]).unwrap();
    assert!(rewrite_private_dict(&entries, &vec![0], &answers, false).is_err());
}

// ------------------------------------------------------------------------------ the table

#[test]
fn an_empty_font_dict_still_gets_a_private_entry() {
    // The specification requires every Font DICT to have one, even when the Private DICT
    // itself is empty, and a reader that does not find one refuses the font.
    let builder = Cff2Builder {
        charstrings: vec![vec![139, 22]],
        font_dicts: vec![FontDictBuilder::default()],
        ..Default::default()
    };
    let bytes = builder.build().unwrap();
    assert_eq!(&bytes[0..3], &[2, 0, 5]);
    // Header plus top DICT plus an empty global subr INDEX.
    let top_dict_length = usize::from(u16::from_be_bytes([bytes[3], bytes[4]]));
    assert!(top_dict_length > 0);
}

/// A small table with a store and a local subroutine.
fn small_table() -> Vec<u8> {
    let builder = Cff2Builder {
        charstrings: vec![vec![139, 22], vec![140, 22]],
        var_store: Some(vec![0u8; 12]),
        font_dicts: vec![FontDictBuilder {
            private: vec![0x8b, 20],
            local_subrs: vec![vec![139, 11]],
            ..Default::default()
        }],
        ..Default::default()
    };
    builder.build().unwrap()
}

fn integer(n: &DictNumber) -> usize {
    match n {
        DictNumber::Integer(v) => *v as usize,
        DictNumber::Real(_) => panic!("not an integer"),
    }
}

#[test]
fn the_written_table_reads_back_through_read_fonts() {
    let bytes = small_table();
    let cff2 = read_fonts::tables::cff2::Cff2::read(read_fonts::FontData::new(&bytes))
        .expect("the table should parse");
    assert_eq!(cff2.header().major_version(), 2);
    assert_eq!(cff2.global_subrs().count(), 0);

    // And the offsets in the Top DICT actually point at the right things.
    let entries = parse_dict(cff2.top_dict_data()).unwrap();
    let charstrings_at = integer(
        &entries.iter().find(|e| e.operator == CHARSTRINGS).unwrap().operands[0],
    );
    let items = index_items(&bytes, charstrings_at).unwrap();
    assert_eq!(items, vec![vec![139u8, 22], vec![140u8, 22]]);
}

#[test]
fn a_truncated_table_is_an_error_rather_than_a_panic() {
    // Every prefix of a valid table is a malformed one. None of them may panic: these bytes
    // come from a file the user chose.
    let whole = small_table();
    for length in 0..whole.len() {
        let truncated = &whole[..length];
        if let Ok(cff2) = read_fonts::tables::cff2::Cff2::read(read_fonts::FontData::new(truncated))
        {
            let _ = parse_dict(cff2.top_dict_data());
            let _ = index_items(truncated, 0);
        }
        let _ = read(truncated);
    }
}

#[test]
fn an_index_offset_past_the_end_is_an_error() {
    assert!(index_items(&[0, 0, 0, 1, 1, 1], 999).is_err());
    // A count that claims more entries than the offsets can describe.
    assert!(index_items(&[0, 0, 0xff, 0xff, 1, 1], 0).is_err());
}

#[test]
fn local_subroutines_are_found_through_the_private_dict() {
    let builder = Cff2Builder {
        charstrings: vec![vec![139, 22]],
        font_dicts: vec![FontDictBuilder {
            private: vec![],
            local_subrs: vec![vec![1, 2, 3], vec![4]],
            ..Default::default()
        }],
        ..Default::default()
    };
    let bytes = builder.build().unwrap();
    let cff2 = read_fonts::tables::cff2::Cff2::read(read_fonts::FontData::new(&bytes)).unwrap();
    let top = parse_dict(cff2.top_dict_data()).unwrap();
    let fd_array_at =
        integer(&top.iter().find(|e| e.operator == FD_ARRAY).unwrap().operands[0]);
    let dicts = index_items(&bytes, fd_array_at).unwrap();
    let fd = read_font_dict(&bytes, &dicts[0]).unwrap();
    assert_eq!(fd.local_subrs, vec![vec![1u8, 2, 3], vec![4u8]]);
}

#[test]
fn a_written_table_is_taken_apart_again() {
    let table = read(&small_table()).unwrap();
    assert_eq!(table.charstrings, vec![vec![139u8, 22], vec![140u8, 22]]);
    assert_eq!(table.var_store, Some(vec![0u8; 12]));
    assert_eq!(table.fd_select, None);
    assert_eq!(table.global_subrs, Vec::<Vec<u8>>::new());
    assert_eq!(table.font_dicts.len(), 1);
    assert_eq!(table.font_dicts[0].local_subrs, vec![vec![139u8, 11]]);
    assert_eq!(private_dict_without_subrs(&table.font_dicts[0].private), vec![0x8b, 20]);
    assert!(top_dict_extra(&table.top_dict).is_empty());
}

// ------------------------------------------------------------------- regions and stores

fn plan(limit: AxisLimit) -> AxisPlan {
    let at = |v: f64| Coord { bits: v.to_bits() };
    AxisPlan {
        spec: AxisSpec {
            tag: "wght".into(),
            min: at(400.0),
            default: at(400.0),
            max: at(900.0),
            name: None,
            hidden: false,
        },
        limit,
    }
}

fn pinned() -> AxisPlan {
    plan(AxisLimit::Pin(Coord { bits: 700f64.to_bits() }))
}

fn tent(axis: usize, start: i16, peak: i16, end: i16) -> AxisTent {
    AxisTent { axis, start, peak, end }
}

#[test]
fn equal_regions_are_interned_once() {
    let mut list = RegionList::default();
    assert!(list.is_empty());
    let a = vec![(0, 16384, 16384)];
    let b = vec![(0, 8192, 16384)];
    assert_eq!(list.intern(&a), 0);
    assert_eq!(list.intern(&b), 1);
    assert_eq!(list.intern(&a), 0);
    assert_eq!(list.regions().len(), 2);
    assert!(!list.is_empty());
    assert_eq!(list.regions(), &vec![a, b]);
}

#[test]
fn pieces_land_on_shared_columns() {
    // Axis 0 is pinned, axis 1 stays.
    let plans = vec![pinned(), plan(AxisLimit::Full)];
    let pieces = vec![
        vec![tent(1, 0, 16384, 16384)],
        vec![],
        vec![tent(0, 0, 16384, 16384)],
        vec![tent(1, 0, 8192, 16384)],
        vec![tent(1, 0, 16384, 16384)],
    ];
    let (list, shares) = restricted_remap(&plans, &pieces);
    assert_eq!(list.regions(), &vec![vec![(0, 16384, 16384)], vec![(0, 8192, 16384)]]);
    assert_eq!(
        shares,
        vec![
            Share::Column(0),
            Share::Gain,
            Share::Lost,
            Share::Column(1),
            Share::Column(0)
        ]
    );
}

/// A one-axis store with one subtable, one region from 0 to its peak at 1, and these deltas.
fn store_bytes(deltas: &[i32]) -> Vec<u8> {
    let rows: Vec<Vec<i32>> = deltas.iter().map(|d| vec![*d]).collect();
    let subtable = Subtable {
        item_count: rows.len() as u16,
        regions: vec![vec![(0, 16384, 16384)]],
        rows,
    };
    rebuild(&vec![plan(AxisLimit::Full)], vec![Some(subtable)]).unwrap().unwrap()
}

#[test]
fn packed_deltas_read_back_at_both_widths() {
    for deltas in [
        vec![0, 1, -1, 100, -100],
        // Beyond 16 bits, which forces the long form.
        vec![70_000, -70_000, 1],
    ] {
        let bytes = store_bytes(&deltas);
        let store = read_fonts::tables::variations::ItemVariationStore::read(
            read_fonts::FontData::new(&bytes),
        )
        .unwrap();
        let data = store.item_variation_data().get(0).unwrap().unwrap();
        let read: Vec<i32> =
            (0..data.item_count()).map(|i| data.delta_set(i).next().unwrap()).collect();
        assert_eq!(read, deltas);
    }
}

#[test]
fn a_packed_subtable_flags_its_width() {
    let short: PackedData = pack(2, vec![0, 1], &vec![vec![1, -2], vec![3, 4]]);
    assert_eq!((short.item_count, short.word_delta_count), (2, 2));
    assert_eq!(short.delta_sets, vec![0, 1, 0xff, 0xfe, 0, 3, 0, 4]);
    let long = pack(1, vec![5], &vec![vec![70_000]]);
    assert_eq!(long.word_delta_count, 0x8001);
    assert_eq!(long.delta_sets, vec![0, 1, 0x11, 0x70]);
}

#[test]
fn a_store_is_taken_apart_and_rebuilt() {
    let bytes = store_bytes(&[100, -50]);
    let old = read_subtables(&bytes).unwrap();
    assert_eq!(old.len(), 1);
    let old = old[0].as_ref().unwrap();
    assert_eq!(old.regions, vec![vec![tent(0, 0, 16384, 16384)]]);
    assert_eq!(old.rows, vec![vec![100], vec![-50]]);

    // Where nothing varies any more, there is no store; a missing subtable still counts.
    let empty = Subtable { item_count: 2, regions: vec![], rows: vec![vec![], vec![]] };
    assert_eq!(rebuild(&vec![pinned()], vec![Some(empty)]).unwrap(), None);
    let kept = Subtable {
        item_count: 1,
        regions: vec![vec![(0, 16384, 16384)]],
        rows: vec![vec![7]],
    };
    let store = rebuild(&vec![plan(AxisLimit::Full)], vec![None, Some(kept)]).unwrap().unwrap();
    let again = read_subtables(&store).unwrap();
    assert!(again[0].is_none());
    assert_eq!(again[1].as_ref().unwrap().rows, vec![vec![7]]);

    assert!(matches!(read_subtables(&[0, 1, 0]), Err(SliceError::Read(_))));
}

// ------------------------------------------------------------------------- instancing

/// A table with one glyph whose stem blends, over a one-region store.
fn variable_table(fd_select: Option<Vec<u8>>) -> Vec<u8> {
    let store = build_var_store(false, 1, &vec![vec![vec![(0, 16384, 16384)]]]).unwrap().unwrap();
    Cff2Builder {
        charstrings: vec![hex("e516e5f7168c10f95031fb168c1006")],
        var_store: Some(store),
        fd_select,
        font_dicts: vec![FontDictBuilder {
            private: vec![0x8b, 20],
            ..Default::default()
        }],
        ..Default::default()
    }
    .build()
    .unwrap()
}

#[test]
fn a_pinned_table_has_plain_charstrings_and_no_store() {
    let source = read(&variable_table(None)).unwrap();
    let regions = read_regions(&source.var_store).unwrap();
    assert_eq!(regions, vec![vec![vec![tent(0, 0, 16384, 16384)]]]);
    let counts: Vec<usize> = regions.iter().map(|r| r.len()).collect();

    let remap = Remap::pinned(0.6);
    let mut resolved: Vec<Resolved> = Vec::new();
    let charstring = loop {
        match rewrite_glyph(&source, 0, &counts, &resolved).unwrap() {
            Rewritten::Done(bytes) => break bytes,
            Rewritten::NeedsBlend { row, .. } => {
                let row: Vec<f64> = row.iter().map(|v| *v as f64 / ONE).collect();
                let (gain, _) = remap.apply(&row);
                resolved.push(Resolved { gain: gain.round_ties_even() as i32, deltas: vec![] });
            },
        }
    };
    let PrivateRewritten::Done(private) =
        rewrite_font_dict(&source, 0, &counts, &vec![], false).unwrap()
    else {
        panic!("nothing blends");
    };
    let var_store = build_var_store(true, 0, &vec![]).unwrap();
    assert_eq!(var_store, None);
    let instance = instantiate(&source, vec![charstring], vec![private], var_store).unwrap();
    assert!(!instance.varies);

    let again = read(&instance.table).unwrap();
    assert_eq!(
        disassemble(&again.charstrings[0]),
        ["90", "op22", "168", "700", "-168", "op6"]
    );
    assert_eq!(again.var_store, None);
}

#[test]
fn a_glyph_in_a_missing_font_dict_is_an_error() {
    // FDSelect format 0 sends glyph 0 to font DICT 0, or to one that is not there.
    let good = read(&variable_table(Some(vec![0, 0]))).unwrap();
    assert!(rewrite_glyph(&good, 0, &vec![1], &vec![]).is_ok());
    let bad = read(&variable_table(Some(vec![0, 3]))).unwrap();
    match rewrite_glyph(&bad, 0, &vec![1], &vec![]) {
        Err(SliceError::Read(text)) => {
            assert_eq!(text, "FDSelect sends glyph 0 to font DICT 3, which does not exist");
        },
        other => panic!("{other:?}"),
    }
}
