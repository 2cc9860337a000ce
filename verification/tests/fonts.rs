//! The engine on whole fonts, built here table by table.
use kurbo::{BezPath, Point as Point2, Shape};
use read_fonts::{FontRef, TableProvider};
use skrifa::instance::{LocationRef, Size};
use skrifa::outline::{DrawSettings, OutlinePen};
use skrifa::MetadataProvider;
use slice_core::apply::{apply_bits, apply_names};
use slice_core::axes::{fmt_coord, AxisLimit, AxisSpec};
use slice_core::bits::BitFlags;
use slice_core::cff2::draw::{
    draw_charstring, keep_charstring, simplify_cubic, CubicContour, CubicMerge, Segment,
};
use slice_core::cff2::font::{
    advance_metrics, hvar_store, instantiate_partial_cff2, instantiate_static_cff2, outline_kind,
    OutlineKind,
};
use slice_core::cff2::hints::strip_hints;
use slice_core::cff2::instance::build_var_store;
use slice_core::cff2::read::read as read_cff2;
use slice_core::cff2::table::{Cff2Builder, FontDictBuilder};
use slice_core::command::info;
use slice_core::coord::Coord;
use slice_core::editors::load_font;
use slice_core::error::SliceError;
use slice_core::feature_vars::{
    feature_ends, has_feature_variations, instantiate_feature_variations, Span, Spans, Triple,
};
use slice_core::fields::owned_post;
use slice_core::finalize::{
    axis_value, collect_glyf_stats, finalize, variation_name_ids, Finalize,
};
use slice_core::font::{show_tag, SliceFont};
use slice_core::glyphs::{
    find_glyph_tables, find_outlines, read_glyph, read_outline, Anchor, Bounds, Component,
    GlyphPoints, GlyphShape, Outline, Point, Transform,
};
use slice_core::job::{
    final_location, plan_axes, Action, Instancing, OutputFormat, SliceJob, SliceRun,
};
use slice_core::mvar::{adjust_i16, adjust_u16, metric_adjustments, nonzero_deltas};
use slice_core::outline::{
    build_glyph, compute_bounding_boxes, write_glyphs, CompositeShape, Glyph, SimpleShape,
};
use slice_core::overlaps::{
    check_simplifiable, contours_can_overlap, paths_to_simple_glyph, remove_overlaps,
    simplify_glyph, Merge, Merges, OverlapReport,
};
use slice_core::partial::{
    build_avar, build_fvar, build_gvar, group_by_support, identity_segment_map,
    instantiate_partial, interpolation_runs, is_segment_map, new_segment_maps, place_tuples,
    read_restriction_glyphs, read_tuples, refuse_unsupported_variation_tables, segment_maps,
    slot_of, tent_fate, AxisTent, MapChange, RebasedTuple, Space, TentFate,
};
use slice_core::sfnt::{assemble_sfnt, be_u16, be_u32, search_params, split_sfnt, tag_name};
use slice_core::stat::{build_stat, parse_tag, AxisPlan};
use slice_core::statics::{
    build_hmtx, build_shapes, glyph_metric, instantiate_static, long_metric_count, read_glyphs,
    x_min,
};
use slice_core::tables::{
    assemble, find_table, need_table, read_tables, FontTable, FVAR, GPOS, GSUB, HMTX, HVAR, STAT,
};
use slice_core::woff::{decode_woff, encode_woff};
use slice_core::woff2::{
    decode_woff2, encode_woff2, set_converted_flag, write_base128, ARBITRARY_TAG, KNOWN_TAGS,
    WOFF2_HEADER_LEN,
};
use write_fonts::tables::avar::{Avar, AxisValueMap, SegmentMaps};
use write_fonts::tables::fvar::{AxisInstanceArrays, Fvar, InstanceRecord, VariationAxisRecord};
use write_fonts::tables::glyf::{
    Anchor as WAnchor, Bbox, Component as WComponent, ComponentFlags, CompositeGlyph, Contour,
    GlyfLocaBuilder, Glyph as WGlyph, SimpleGlyph, Transform as WTransform,
};
use write_fonts::tables::gsub::Gsub;
use write_fonts::tables::gvar::{GlyphDelta, GlyphDeltas, GlyphVariations, Gvar};
use write_fonts::tables::head::Head;
use write_fonts::tables::hhea::Hhea;
use write_fonts::tables::hvar::Hvar;
use write_fonts::tables::layout::{
    Condition, ConditionSet, Feature, FeatureList, FeatureRecord, FeatureTableSubstitution,
    FeatureTableSubstitutionRecord, FeatureVariationRecord, FeatureVariations,
};
use write_fonts::tables::maxp::Maxp;
use write_fonts::tables::mvar::{Mvar, ValueRecord};
use write_fonts::tables::name::{Name, NameRecord};
use write_fonts::tables::os2::{Os2, SelectionFlags};
use write_fonts::tables::post::Post;
use write_fonts::tables::stat as wstat;
use write_fonts::tables::stat::AxisValueTableFlags;
use write_fonts::tables::variations::{
    ItemVariationData, ItemVariationStore, RegionAxisCoordinates, Tent, VariationRegion,
    VariationRegionList,
};
use write_fonts::types::{F2Dot14, FWord, Fixed, GlyphId, NameId, Tag};
use write_fonts::FontBuilder;

// --------------------------------------------------------------------------- the fixtures

fn at(v: f64) -> Coord {
    Coord { bits: v.to_bits() }
}

fn value(c: Coord) -> f64 {
    f64::from_bits(c.bits)
}

fn curve_point(x: i16, y: i16) -> read_fonts::tables::glyf::CurvePoint {
    read_fonts::tables::glyf::CurvePoint::on_curve(x, y)
}

fn square_outline(size: i16) -> SimpleGlyph {
    SimpleGlyph {
        bbox: Bbox { x_min: 0, y_min: 0, x_max: size, y_max: size },
        contours: vec![Contour::from(vec![
            curve_point(0, 0),
            curve_point(size, 0),
            curve_point(size, size),
            curve_point(0, size),
        ])],
        instructions: vec![0x4f],
        overlaps: false,
    }
}

/// A glyph list: an empty one, a square, a dot, and a composite of both.
fn outlines() -> Vec<WGlyph> {
    let part = |gid: u32, x: i16, y: i16| {
        WComponent::new(
            GlyphId::new(gid),
            WAnchor::Offset { x, y },
            WTransform::default(),
            ComponentFlags::default(),
        )
    };
    let boxed = Bbox { x_min: 0, y_min: 0, x_max: 400, y_max: 640 };
    let parts = [(part(1, 0, 0), boxed), (part(2, 0, 520), boxed)];
    vec![
        WGlyph::Empty,
        WGlyph::Simple(square_outline(400)),
        WGlyph::Simple(square_outline(120)),
        WGlyph::Composite(CompositeGlyph::try_from_iter(parts).unwrap()),
    ]
}

fn name(id: u16, text: &str) -> NameRecord {
    NameRecord::new(3, 1, 0x409, NameId::new(id), text.to_string().into())
}

fn axis_record(tag: &[u8; 4], min: f64, default: f64, max: f64, id: u16) -> VariationAxisRecord {
    VariationAxisRecord {
        axis_tag: Tag::new(tag),
        min_value: Fixed::from_f64(min),
        default_value: Fixed::from_f64(default),
        max_value: Fixed::from_f64(max),
        flags: 0,
        axis_name_id: NameId::new(id),
    }
}

fn named_instance(id: u16, wght: f64, wdth: f64) -> InstanceRecord {
    InstanceRecord {
        subfamily_name_id: NameId::new(id),
        flags: 0,
        coordinates: vec![Fixed::from_f64(wght), Fixed::from_f64(wdth)],
        post_script_name_id: None,
    }
}

fn peak(values: &[f32]) -> Vec<Tent> {
    values.iter().map(|v| Tent::new(F2Dot14::from_f32(*v), None)).collect()
}

/// The square grows to the right with the weight, and its advance with it.
fn square_deltas() -> Vec<GlyphDelta> {
    [(0, 0), (100, 0), (100, 0), (0, 0), (0, 0), (100, 0), (0, 0), (0, 0)]
        .iter()
        .map(|(x, y)| GlyphDelta::required(*x, *y))
        .collect()
}

fn stat_table() -> wstat::Stat {
    let axis = |tag: &[u8; 4], id: u16, ordering: u16| {
        wstat::AxisRecord::new(Tag::new(tag), NameId::new(id), ordering)
    };
    let value = |index: u16, id: u16, v: f64| {
        wstat::AxisValue::format_1(
            index,
            AxisValueTableFlags::empty(),
            NameId::new(id),
            Fixed::from_f64(v),
        )
    };
    wstat::Stat::new(
        vec![axis(b"wght", 256, 0), axis(b"wdth", 257, 1)],
        vec![value(0, 258, 400.0), value(0, 259, 900.0), value(1, 260, 100.0)],
        NameId::new(2),
    )
}

/// A record that swaps feature 0 for one with another lookup where the weight is high.
fn gsub_table() -> Gsub {
    let condition =
        Condition::format_1_axis_range(0, F2Dot14::from_f32(0.5), F2Dot14::from_f32(1.0));
    let record = FeatureVariationRecord::new(
        Some(ConditionSet::new(vec![condition])),
        Some(FeatureTableSubstitution::new(vec![FeatureTableSubstitutionRecord::new(
            0,
            Feature::new(None, vec![7]),
        )])),
    );
    let mut gsub = Gsub::default();
    gsub.feature_list = Some(FeatureList::new(vec![FeatureRecord::new(
        Tag::new(b"rvrn"),
        Feature::new(None, vec![]),
    )]))
    .into();
    gsub.feature_variations = Some(FeatureVariations::new(vec![record])).into();
    gsub
}

fn common_tables(builder: &mut FontBuilder) {
    let head = Head {
        units_per_em: 1000,
        magic_number: 0x5f0f_3cf5,
        x_max: 400,
        y_max: 640,
        ..Default::default()
    };
    builder.add_table(&head).unwrap();
    let hhea = Hhea {
        ascender: FWord::new(800),
        descender: FWord::new(-200),
        number_of_h_metrics: 4,
        ..Default::default()
    };
    builder.add_table(&hhea).unwrap();
    let os2 = Os2 {
        us_weight_class: 400,
        us_width_class: 5,
        fs_selection: SelectionFlags::from_bits_truncate(1 << 6),
        s_typo_ascender: 800,
        ..Default::default()
    };
    builder.add_table(&os2).unwrap();
    let post = Post {
        version: write_fonts::types::Version16Dot16::VERSION_3_0,
        underline_position: FWord::new(-100),
        underline_thickness: FWord::new(50),
        ..Default::default()
    };
    builder.add_table(&post).unwrap();
    let names = vec![
        name(1, "Test Family"),
        name(2, "Regular"),
        name(3, "Test Family Regular unique"),
        name(4, "Test Family Regular"),
        name(5, "Version 1.5; test"),
        name(6, "TestFamily-Regular"),
        name(16, "Typographic"),
        name(256, "Weight"),
        name(257, "Width"),
        name(258, "Regular"),
        name(259, "Black"),
        name(260, "Normal"),
        name(300, "not a variation's"),
    ];
    builder.add_table(&Name::new(names)).unwrap();
    let mut hmtx: Vec<u8> = Vec::new();
    for (advance, lsb) in [(500u16, 0i16), (450, 0), (200, 10), (450, 0)] {
        hmtx.extend(advance.to_be_bytes());
        hmtx.extend(lsb.to_be_bytes());
    }
    builder.add_raw(Tag::new(b"hmtx"), hmtx);
}

fn add_fvar(builder: &mut FontBuilder) {
    let fvar = Fvar::new(AxisInstanceArrays::new(
        vec![
            axis_record(b"wght", 400.0, 400.0, 900.0, 256),
            axis_record(b"wdth", 75.0, 100.0, 100.0, 257),
        ],
        vec![named_instance(258, 400.0, 100.0), named_instance(259, 900.0, 100.0)],
    ));
    builder.add_table(&fvar).unwrap();
    builder.add_table(&stat_table()).unwrap();
    let map = |pairs: &[(f32, f32)]| {
        SegmentMaps::new(
            pairs
                .iter()
                .map(|(a, b)| AxisValueMap::new(F2Dot14::from_f32(*a), F2Dot14::from_f32(*b)))
                .collect(),
        )
    };
    let avar = Avar::new(vec![
        map(&[(-1.0, -1.0), (0.0, 0.0), (0.5, 0.75), (1.0, 1.0)]),
        map(&[(-1.0, -1.0), (0.0, 0.0), (1.0, 1.0)]),
    ]);
    builder.add_table(&avar).unwrap();
}

/// A variable font with TrueType outlines, two axes and feature variations.
fn variable_font() -> Vec<u8> {
    let mut builder = FontBuilder::new();
    common_tables(&mut builder);
    add_fvar(&mut builder);
    let mut glyf = GlyfLocaBuilder::new();
    for glyph in outlines() {
        glyf.add_glyph(&glyph).unwrap();
    }
    let (glyf, loca, _) = glyf.build();
    builder.add_table(&glyf).unwrap();
    builder.add_table(&loca).unwrap();
    builder.add_table(&Maxp {
        num_glyphs: 4,
        max_points: Some(4),
        max_contours: Some(1),
        max_composite_points: Some(0),
        max_composite_contours: Some(0),
        max_zones: Some(1),
        max_twilight_points: Some(0),
        max_storage: Some(0),
        max_function_defs: Some(0),
        max_instruction_defs: Some(0),
        max_stack_elements: Some(0),
        max_size_of_instructions: Some(0),
        max_component_elements: Some(0),
        max_component_depth: Some(0),
    })
    .unwrap();
    let gvar = Gvar::new(
        vec![
            GlyphVariations::new(GlyphId::new(0), vec![]),
            GlyphVariations::new(
                GlyphId::new(1),
                vec![GlyphDeltas::new(peak(&[1.0, 0.0]), square_deltas())],
            ),
            GlyphVariations::new(GlyphId::new(2), vec![]),
            GlyphVariations::new(GlyphId::new(3), vec![]),
        ],
        2,
    )
    .unwrap();
    builder.add_table(&gvar).unwrap();
    builder.add_table(&gsub_table()).unwrap();
    builder.build()
}

/// A one-region store whose first delta sets are these.
fn store_with(deltas: &[i16]) -> ItemVariationStore {
    let axis = |peak: f32| {
        RegionAxisCoordinates::new(
            F2Dot14::from_f32(0.0),
            F2Dot14::from_f32(peak),
            F2Dot14::from_f32(peak),
        )
    };
    let list = VariationRegionList::new(2, vec![VariationRegion::new(vec![axis(1.0), axis(0.0)])]);
    let sets = deltas.iter().flat_map(|d| d.to_be_bytes()).collect();
    let data = ItemVariationData::new(deltas.len() as u16, 1, vec![0], sets);
    ItemVariationStore::new(list, vec![Some(data)])
}

/// A variable font with CFF2 outlines: a box whose width blends, in glyph 1.
fn cff2_font() -> Vec<u8> {
    let store =
        build_var_store(false, 2, &vec![vec![vec![(0, 16384, 16384), (0, 0, 0)]]]).unwrap();
    let charstring: Vec<u8> = vec![
        0xe5, 0x16, 0xe5, 0xf7, 0x16, 0x8c, 0x10, 0xf9, 0x50, 0x31, 0xfb, 0x16, 0x8c, 0x10, 0x06,
    ];
    let cff2 = Cff2Builder {
        charstrings: vec![vec![], charstring, vec![], vec![]],
        var_store: store,
        font_dicts: vec![FontDictBuilder::default()],
        ..Default::default()
    }
    .build()
    .unwrap();
    let mut builder = FontBuilder::new();
    common_tables(&mut builder);
    add_fvar(&mut builder);
    builder.add_table(&Maxp::new(4)).unwrap();
    builder.add_raw(Tag::new(b"CFF2"), cff2);
    builder.add_table(&Hvar::new(store_with(&[0, 130, 0, 0]), None, None, None)).unwrap();
    builder.build()
}

/// The font without its variations, as a copy of the tables.
fn static_font() -> Vec<u8> {
    let bytes = variable_font();
    let tables = read_tables(&bytes).unwrap();
    let points = read_glyphs(&tables).unwrap();
    let shapes = build_shapes(&points);
    let metrics = metrics_of(&points, &shapes);
    instantiate_static(&tables, &shapes, &metrics, &vec![], None).unwrap()
}

fn metrics_of(points: &[GlyphPoints], shapes: &[Glyph]) -> Vec<(u16, i16)> {
    points.iter().zip(shapes).map(|(p, s)| p.metrics(x_min(s))).collect()
}

fn loaded(bytes: Vec<u8>) -> SliceFont {
    match SliceFont::load(bytes) {
        Ok(font) => font,
        Err(e) => panic!("{e:?}"),
    }
}

fn plans(wght: AxisLimit, wdth: AxisLimit) -> Vec<AxisPlan> {
    let axes = loaded(variable_font()).axes().unwrap();
    plan_axes(&axes, &vec![wght, wdth])
}

fn pin(v: f64) -> AxisLimit {
    AxisLimit::Pin(at(v))
}

fn table_tags(sfnt: &[u8]) -> Vec<String> {
    read_tables(sfnt).unwrap().iter().map(|t| show_tag(t.tag)).collect()
}

// ----------------------------------------------------------------------------- containers

#[test]
fn search_params_follow_the_spec() {
    // The worked example in the OpenType spec: 9 tables.
    assert_eq!(search_params(9), (128, 3, 16));
    assert_eq!(search_params(1), (16, 0, 0));
    assert_eq!(search_params(16), (256, 4, 0));
}

#[test]
fn woff_round_trip_preserves_table_contents() {
    let ttf = variable_font();
    let woff = encode_woff(&ttf).unwrap();
    assert_eq!(&woff[..4], b"wOFF");
    let back = decode_woff(&woff).unwrap();

    let (_, orig) = split_sfnt(&ttf).unwrap();
    let (_, round) = split_sfnt(&back).unwrap();
    assert_eq!(orig.len(), round.len());
    for (a, b) in orig.iter().zip(round.iter()) {
        assert_eq!(a.tag, b.tag);
        assert_eq!(a.bytes, b.bytes, "table {} changed", tag_name(&a.tag));
    }
}

#[test]
fn woff_input_decodes_to_a_parseable_sfnt() {
    let sfnt = decode_woff(&encode_woff(&variable_font()).unwrap()).unwrap();
    assert_eq!(&sfnt[..4], &[0x00, 0x01, 0x00, 0x00]);
    FontRef::new(&sfnt).expect("decoded WOFF should parse as a font");
}

#[test]
fn truncated_woff_is_rejected_rather_than_panicking() {
    let woff = encode_woff(&variable_font()).unwrap();
    for cut in [4, 20, 44, 60, woff.len() / 2] {
        assert!(decode_woff(&woff[..cut]).is_err(), "truncation at {cut} should be an error");
    }
}

#[test]
fn base128_matches_the_worked_examples_in_the_spec() {
    let encode = |v| {
        let mut out = Vec::new();
        write_base128(&mut out, v);
        out
    };
    assert_eq!(encode(0), vec![0x00]);
    assert_eq!(encode(1), vec![0x01]);
    assert_eq!(encode(127), vec![0x7f]);
    assert_eq!(encode(128), vec![0x81, 0x00]);
    assert_eq!(encode(0x3fff), vec![0xff, 0x7f]);
    assert_eq!(encode(0x4000), vec![0x81, 0x80, 0x00]);
    assert_eq!(encode(u32::MAX), vec![0x8f, 0xff, 0xff, 0xff, 0x7f]);
    // No encoding may begin with 0x80: that would be a leading zero group.
    for v in [0u32, 1, 127, 128, 16384, 1 << 28, u32::MAX] {
        assert_ne!(encode(v)[0], 0x80, "leading zero group for {v}");
    }
}

#[test]
fn the_known_tag_table_is_the_one_the_spec_defines() {
    assert_eq!(KNOWN_TAGS.len(), 63);
    assert_eq!(&KNOWN_TAGS[0], b"cmap");
    assert_eq!(&KNOWN_TAGS[10], b"glyf");
    assert_eq!(&KNOWN_TAGS[11], b"loca");
    assert_eq!(&KNOWN_TAGS[47], b"fvar");
    assert_eq!(&KNOWN_TAGS[62], b"Sill");
    // `STAT` is deliberately absent, so it exercises the escape path.
    assert!(!KNOWN_TAGS.contains(b"STAT"));
}

fn tables(sfnt: &[u8]) -> Vec<(String, Vec<u8>)> {
    let (_, tables) = split_sfnt(sfnt).unwrap();
    tables.into_iter().map(|t| (tag_name(&t.tag), t.bytes)).collect()
}

#[test]
fn woff2_input_decodes_to_a_parseable_sfnt() {
    let sfnt = decode_woff2(&encode_woff2(&variable_font()).unwrap()).unwrap();
    assert_eq!(&sfnt[..4], &[0x00, 0x01, 0x00, 0x00]);
    FontRef::new(&sfnt).expect("decoded WOFF2 should parse as a font");
}

#[test]
fn woff2_round_trip_preserves_every_table_byte_for_byte() {
    let ttf = variable_font();
    let woff2 = encode_woff2(&ttf).unwrap();
    assert_eq!(&woff2[..4], b"wOF2");
    let back = decode_woff2(&woff2).unwrap();

    let orig = tables(&ttf);
    let round = tables(&back);
    assert_eq!(orig.len(), round.len());
    for ((tag, a), (_, b)) in orig.iter().zip(round.iter()) {
        if tag == "head" {
            // Bit 11 of head.flags is set on the way out, by design, and
            // checkSumAdjustment follows from it.
            let mut a = a.clone();
            let mut b = b.clone();
            assert_eq!(u16::from_be_bytes([b[16], b[17]]) & 0x800, 0x800);
            for range in [8..12, 16..18] {
                a[range.clone()].fill(0);
                b[range].fill(0);
            }
            assert_eq!(a, b, "head differs outside its volatile fields");
        } else {
            assert_eq!(a, b, "table {tag} changed");
        }
    }
}

#[test]
fn the_round_trip_survives_a_second_pass_through_woff() {
    // WOFF and WOFF2 should agree on what the font is, whichever order they are applied in.
    let ttf = variable_font();
    let via_woff2 = decode_woff2(&encode_woff2(&ttf).unwrap()).unwrap();
    let via_both = decode_woff(&encode_woff(&via_woff2).unwrap()).unwrap();
    assert_eq!(tables(&via_woff2), tables(&via_both));
}

#[test]
fn truncated_woff2_is_rejected_rather_than_panicking() {
    let woff2 = encode_woff2(&variable_font()).unwrap();
    for cut in [0, 1, 4, 20, 47, 48, 60, 200, woff2.len() / 2] {
        assert!(decode_woff2(&woff2[..cut]).is_err(), "truncation at {cut} should be an error");
    }
}

#[test]
fn malformed_woff2_is_rejected_rather_than_panicking() {
    let good = encode_woff2(&variable_font()).unwrap();

    assert!(decode_woff2(b"").is_err());
    assert!(decode_woff2(&[0u8; 48]).is_err(), "bad signature");
    assert!(decode_woff2(&variable_font()).is_err(), "a plain sfnt is not a WOFF2");
    assert!(
        decode_woff2(&encode_woff(&variable_font()).unwrap()).is_err(),
        "a WOFF 1.0 file is not a WOFF2"
    );

    // A header that claims an absurd number of tables, or an absurd size, must not be
    // believed.
    let mut lying = good.to_vec();
    lying[12..14].copy_from_slice(&u16::MAX.to_be_bytes());
    assert!(decode_woff2(&lying).is_err(), "numTables = 65535");

    let mut lying = good.to_vec();
    lying[20..24].copy_from_slice(&u32::MAX.to_be_bytes());
    assert!(decode_woff2(&lying).is_err(), "totalCompressedSize = 4 GiB");

    // Corrupt bytes scattered through the directory and the brotli stream.
    for at in [48, 49, 60, 100, good.len() / 2, good.len() - 1] {
        let mut broken = good.to_vec();
        broken[at] ^= 0xff;
        // Some of these may still decode to something; the requirement is only that the
        // decoder returns rather than panicking or hanging.
        let _ = decode_woff2(&broken);
    }
}

#[test]
fn encoding_refuses_input_that_is_not_a_font() {
    assert!(encode_woff2(b"").is_err());
    assert!(encode_woff2(b"not a font at all").is_err());
    // A collection has a different directory layout and is not handled.
    let mut ttc = variable_font();
    ttc[..4].copy_from_slice(b"ttcf");
    assert!(encode_woff2(&ttc).is_err());
}

#[test]
fn the_header_says_what_the_file_actually_contains() {
    let ttf = variable_font();
    let woff2 = encode_woff2(&ttf).unwrap();
    let be32 = |at: usize| u32::from_be_bytes(woff2[at..at + 4].try_into().unwrap());

    assert_eq!(&woff2[4..8], &ttf[..4], "flavor should be the sfnt's");
    assert_eq!(be32(8) as usize, woff2.len(), "length");
    let num_tables = u16::from_be_bytes([woff2[12], woff2[13]]) as usize;
    assert_eq!(num_tables, tables(&ttf).len());

    // totalSfntSize is what the decoder allocates: header, directory, padded tables.
    let expected: usize = 12
        + num_tables * 16
        + tables(&ttf).iter().map(|(_, b)| b.len().next_multiple_of(4)).sum::<usize>();
    assert_eq!(be32(16) as usize, expected, "totalSfntSize");
    assert_eq!(&woff2[24..48], &[0u8; 24], "version, meta and priv are empty");

    // Walk the table directory the way a decoder does, and check that it ends exactly where
    // the compressed block the header describes begins.
    let mut at = WOFF2_HEADER_LEN;
    for (tag, bytes) in tables(&ttf) {
        let flags = woff2[at];
        at += 1;
        let index = flags & 0x3f;
        let expected_version = if tag == "glyf" || tag == "loca" { 3 } else { 0 };
        assert_eq!(flags >> 6, expected_version, "transform version for {tag}");
        if index == ARBITRARY_TAG {
            assert_eq!(&woff2[at..at + 4], tag.as_bytes(), "explicit tag");
            at += 4;
        } else {
            assert_eq!(&KNOWN_TAGS[index as usize], tag.as_bytes(), "tag index");
        }
        // UIntBase128 origLength, and no transformLength: nothing was transformed.
        let mut orig_length: u32 = 0;
        loop {
            let byte = woff2[at];
            at += 1;
            orig_length = (orig_length << 7) | u32::from(byte & 0x7f);
            if byte & 0x80 == 0 {
                break;
            }
        }
        assert_eq!(orig_length as usize, bytes.len(), "origLength for {tag}");
    }
    assert_eq!(
        (at + be32(20) as usize).next_multiple_of(4),
        woff2.len(),
        "header, directory, compressed block and padding should be the whole file"
    );
    assert_eq!(woff2.len() % 4, 0, "the file should be four-byte aligned");
}

#[test]
fn an_sfnt_comes_apart_and_together() {
    let ttf = variable_font();
    let (flavor, tables) = split_sfnt(&ttf).unwrap();
    assert_eq!(flavor, 0x0001_0000);
    let again = assemble_sfnt(flavor, &tables);
    let (_, back) = split_sfnt(&again).unwrap();
    assert_eq!(back.len(), tables.len());
    assert_eq!((be_u16(&again, 4).unwrap() as usize, be_u32(&again, 0).unwrap()), (tables.len(), flavor));
    assert!(be_u16(&again, again.len()).is_err());
    let mut head = vec![0u8; 54];
    set_converted_flag(&mut head).unwrap();
    assert_eq!(head[16], 8);
    assert!(set_converted_flag(&mut vec![0u8; 4]).is_err());
}

// -------------------------------------------------------------------------- what is shown

#[test]
fn garbage_is_rejected_at_load_time() {
    assert!(SliceFont::load(b"this is not a font".to_vec()).is_err());
}

#[test]
fn the_axis_rows_are_in_fvar_order() {
    let font = loaded(variable_font());
    assert!(font.is_variable());
    assert!(font.is_truetype());
    let axes = font.axes().unwrap();
    assert_eq!(axes.len(), 2);
    assert_eq!(axes[0].tag, "wght");
    assert_eq!(axes[0].name.as_deref(), Some("Weight"));
    assert_eq!(
        (value(axes[1].min), value(axes[1].default), value(axes[1].max)),
        (75.0, 100.0, 100.0)
    );
    assert_eq!(font.glyph_count(), 4);
    assert_eq!(font.units_per_em(), 1000);
    assert_eq!(font.family_name().as_deref(), Some("Test Family"));
    assert_eq!(font.version().as_deref(), Some("Version 1.5"));
    assert_eq!(font.name_string(300).as_deref(), Some("not a variation's"));
    assert_eq!(font.name_string(301), None);
    assert_eq!(font.bit_flags(), BitFlags { fs_selection: 1 << 6, mac_style: 0 });
}

#[test]
fn a_static_font_is_not_variable() {
    let font = loaded(static_font());
    assert!(!font.is_variable());
    assert!(matches!(font.axes(), Err(SliceError::NotVariable)));
}

#[test]
fn reads_the_name_editor_rows() {
    let edits = loaded(variable_font()).name_edits();
    assert_eq!(edits.get(1), Some("Test Family"));
    assert_eq!(edits.get(2), Some("Regular"));
    assert_eq!(edits.get(16), Some("Typographic"));
    assert_eq!(edits.get(17), None);
}

#[test]
fn woff_input_is_unwrapped_to_the_same_font() {
    let ttf = loaded(variable_font());
    for wrapped in [encode_woff(&variable_font()), encode_woff2(&variable_font())] {
        let font = loaded(wrapped.unwrap());
        assert_eq!(ttf.axes().unwrap(), font.axes().unwrap());
        assert_eq!(ttf.glyph_count(), font.glyph_count());
    }
}

#[test]
fn opening_a_font_fills_the_editors() {
    match load_font(variable_font()) {
        Ok(opened) => {
            assert_eq!(opened.status, "Test Family Version 1.5 loaded (2 axes)");
            assert_eq!(opened.axis_text, vec![String::new(), String::new()]);
            assert_eq!(opened.names.get(4), Some("Test Family Regular"));
            assert_eq!(opened.bits.fs_selection, 1 << 6);
        },
        Err(problem) => panic!("{problem:?}"),
    }
    match load_font(static_font()) {
        Err(problem) => {
            assert_eq!(
                problem.summary,
                "The file does not appear to be a variable font. See details below."
            );
            assert!(matches!(problem.details, SliceError::NotVariable));
        },
        Ok(_) => panic!("should not open"),
    }
}

#[test]
fn info_shows_what_the_editors_show() {
    let font = loaded(variable_font());
    let axes = font.axes().unwrap();
    let shown = vec![
        ("400.0".to_string(), "900.0".to_string(), "400.0".to_string()),
        ("75.0".to_string(), "100.0".to_string(), "100.0".to_string()),
    ];
    let lines = info(&font, &axes, &shown, true);
    assert_eq!(lines[0], "  Test Family  Version 1.5");
    assert_eq!(lines[1], "  4 glyphs, 1000 units per em, TrueType outlines");
    assert_eq!(lines[2..4], ["", "Axis Editor"]);
    assert_eq!(lines[4], "  wght   400.0 : 900.0 [400.0]        Weight");
    assert_eq!(lines[6..8], ["", "Name Editor"]);
    assert_eq!(lines[8], "  01 Family            Test Family");
    assert_eq!(lines[17..19], ["", "All name records"]);
    assert_eq!(lines[19], "    1  Test Family");
    assert!(lines.contains(&"   16  Typographic".to_string()));
    assert!(lines.contains(&"  OS/2.fsSelection  0000000001000000  (bit 6 (REGULAR))".to_string()));
    assert_eq!(
        lines.last().unwrap(),
        "  head.macStyle     0000000000000000  (none of the editable bits set)"
    );
    let lines = info(&loaded(static_font()), &vec![], &vec![], false);
    assert!(lines
        .contains(&"  Not a variable font: no fvar table, so there is nothing to slice.".to_string()));
}

// ---------------------------------------------------------------------- names and flags

#[test]
fn a_cleared_row_is_deleted_and_others_are_kept() {
    let font = loaded(variable_font());
    let mut edits = font.name_edits();
    edits.set(1, "Sliced Family").set(16, "").set(17, "Bold");
    let bytes = apply_names(font.data(), &edits).unwrap();
    let after = loaded(bytes);
    assert_eq!(after.name_edits().get(1), Some("Sliced Family"));
    assert_eq!(after.name_edits().get(16), None);
    assert_eq!(after.name_edits().get(17), Some("Bold"));
    assert_eq!(after.name_string(300).as_deref(), Some("not a variation's"));
    assert!(apply_names(b"nothing", &edits).is_err());
}

#[test]
fn flags_are_written_without_the_bits_that_have_no_meaning() {
    let font = loaded(variable_font());
    let bits = BitFlags { fs_selection: 0xffff, mac_style: 0xffff };
    let after = loaded(apply_bits(font.data(), bits).unwrap());
    assert_eq!(after.bit_flags(), BitFlags { fs_selection: 0x3ff, mac_style: 0x7f });
}

// ----------------------------------------------------------------------------- finalizing

#[test]
fn variation_name_ids_ignores_the_reserved_range() {
    let tables = read_tables(&variable_font()).unwrap();
    let ids = variation_name_ids(&tables);
    assert!(!ids.is_empty(), "the fixture has axis and instance names");
    assert!(ids.iter().all(|id| *id > 255));
    assert!(!ids.contains(&300));
}

#[test]
fn measures_are_recalculated_from_the_outlines() {
    let tables = read_tables(&variable_font()).unwrap();
    let stats = collect_glyf_stats(&tables).unwrap();
    assert_eq!((stats.x_min, stats.y_min, stats.x_max, stats.y_max), (0, 0, 400, 640));
    assert_eq!((stats.max_points, stats.max_contours), (4, 1));
    assert_eq!((stats.max_composite_points, stats.max_composite_contours), (8, 2));
    assert_eq!((stats.max_component_elements, stats.max_component_depth), (2, 1));
    assert_eq!(stats.advance_width_max, 500);
}

#[test]
fn a_finalized_font_has_its_classes_and_no_dead_names() {
    let before = static_font();
    let ids = variation_name_ids(&read_tables(&variable_font()).unwrap());
    let options = Finalize {
        weight_class: Some(900),
        width_class: Some(3),
        italic_angle: Some(-10 * 65536),
        variation_name_ids_before: ids,
    };
    let bytes = finalize(&before, &options).unwrap();
    let font = FontRef::new(&bytes).unwrap();
    assert_eq!(font.os2().unwrap().us_weight_class(), 900);
    assert_eq!(font.os2().unwrap().us_width_class(), 3);
    // (500 + 450 + 200 + 450) / 4
    assert_eq!(font.os2().unwrap().x_avg_char_width(), 400);
    assert_eq!(font.post().unwrap().italic_angle().to_f64(), -10.0);
    assert_eq!(font.maxp().unwrap().max_composite_points(), Some(8));
    let after = loaded(bytes.clone());
    assert_eq!(after.name_string(256), None);
    assert_eq!(after.name_string(300).as_deref(), Some("not a variation's"));
    assert_eq!(after.bit_flags(), loaded(before).bit_flags());
}

#[test]
fn the_names_that_are_left_have_to_fit() {
    // One record more than a table can hold, without any text, and of these one is dead.
    let mut name = vec![0, 0];
    name.extend(5461u16.to_be_bytes());
    name.extend([0xff, 0xff]);
    for i in 0..5461u16 {
        let id: u16 = if i == 5460 { 256 } else { 1 };
        for field in [3, 1, i, id, 0xffff, 0xffff] {
            name.extend(field.to_be_bytes());
        }
    }
    let mut tables = read_tables(&static_font()).unwrap();
    for table in tables.iter_mut() {
        if table.tag == u32::from_be_bytes(*b"name") {
            table.bytes = name.clone();
        }
    }
    let bytes = assemble(&tables).unwrap();
    let finalized = |dead: Vec<u16>| {
        finalize(&bytes, &Finalize {
            weight_class: None,
            width_class: None,
            italic_angle: None,
            variation_name_ids_before: dead,
        })
    };
    let out = finalized(vec![256]).unwrap();
    let font = FontRef::new(&out).unwrap();
    let left = font.name().unwrap();
    assert_eq!(left.name_record().len(), 5460);
    assert!(left.name_record().iter().all(|r| r.name_id().to_u16() == 1));
    // With an ID that no record has, all of them are left, and they do not fit.
    assert!(matches!(finalized(vec![300]), Err(SliceError::Write(_))));
}

#[test]
fn an_axis_is_found_in_a_location_by_its_tag() {
    let location = vec![("wght".to_string(), at(700.0)), ("slnt".to_string(), at(-15.0))];
    assert_eq!(axis_value(&location, "slnt").map(value), Some(-15.0));
    assert_eq!(axis_value(&location, "wdth"), None);
}

// -------------------------------------------------------------------------------- glyphs

#[test]
fn every_glyph_reads_back_with_four_phantom_points() {
    let tables = read_tables(&variable_font()).unwrap();
    let points = read_glyphs(&tables).unwrap();
    assert_eq!(points.len(), 4);
    assert_eq!(points[0].coords.len(), 4);
    assert_eq!(points[1].coords.len(), 8);
    assert_eq!(points[3].coords.len(), 6);
    assert!(matches!(points[0].shape, GlyphShape::Empty));
    assert!(matches!(points[3].shape, GlyphShape::Composite { .. }));
    assert_eq!(points[1].coords[1], (400, 0));
}

#[test]
fn phantom_points_reproduce_the_original_metrics() {
    let tables = read_tables(&variable_font()).unwrap();
    let points = read_glyphs(&tables).unwrap();
    let shapes = build_shapes(&points);
    let metrics = metrics_of(&points, &shapes);
    assert_eq!(metrics, vec![(500, 0), (450, 0), (200, 10), (450, 0)]);
    let t = find_glyph_tables(&tables).unwrap();
    assert_eq!(read_glyph(&t, 2).unwrap().coords.len(), 8);
    assert_eq!(glyph_metric(500, -10), (500, -10));
}

#[test]
fn outlines_are_read_as_they_are_stored() {
    let tables = read_tables(&variable_font()).unwrap();
    let o = find_outlines(&tables).unwrap();
    match read_outline(&o, 1) {
        Some(Outline::Simple(s)) => {
            assert_eq!(s.end_pts, vec![3]);
            assert_eq!(s.points[2], Point { x: 400, y: 400, on_curve: true });
            assert_eq!(s.instructions, vec![0x4f]);
        },
        other => panic!("{other:?}"),
    }
    match read_outline(&o, 3) {
        Some(Outline::Composite(c)) => {
            assert_eq!(c.components.len(), 2);
            assert_eq!(c.components[1].glyph, 2);
            assert_eq!(c.components[1].anchor, Anchor::Offset { x: 0, y: 520 });
        },
        other => panic!("{other:?}"),
    }
    assert!(matches!(read_outline(&o, 0), Some(Outline::Empty)));
}

#[test]
fn bounding_boxes_resolve_through_nesting() {
    let square = |size: i16| {
        Glyph::Simple(SimpleShape {
            bbox: Bounds { x_min: 0, y_min: 0, x_max: size, y_max: size },
            contours: vec![vec![
                Point { x: 0, y: 0, on_curve: true },
                Point { x: size, y: size, on_curve: true },
            ]],
            instructions: vec![],
            overlaps: false,
        })
    };
    let composite = |parts: &[(u32, i16, i16)]| {
        Glyph::Composite(CompositeShape {
            bbox: Bounds::default(),
            components: parts
                .iter()
                .map(|&(glyph, x, y)| Component {
                    glyph,
                    anchor: Anchor::Offset { x, y },
                    flags: 0,
                    transform: Transform { xx: 16384, yx: 0, xy: 0, yy: 16384 },
                })
                .collect(),
            instructions: vec![],
        })
    };
    let glyphs = vec![
        square(400),
        square(120),
        composite(&[(0, 0, 0), (1, 0, 520)]),
        composite(&[(2, 0, 0), (1, 500, 0)]),
        Glyph::Empty,
    ];
    let boxes = compute_bounding_boxes(&glyphs);
    assert_eq!(boxes[2], Bounds { x_min: 0, y_min: 0, x_max: 400, y_max: 640 });
    assert_eq!(boxes[3], Bounds { x_min: 0, y_min: 0, x_max: 620, y_max: 640 });
    assert_eq!(boxes[4], Bounds::default());
    assert_eq!(
        boxes[0].union(Bounds { x_min: -5, y_min: 3, x_max: 10, y_max: 500 }),
        Bounds { x_min: -5, y_min: 0, x_max: 400, y_max: 500 }
    );
}

#[test]
fn written_glyphs_read_back() {
    let tables = read_tables(&variable_font()).unwrap();
    let shapes = build_shapes(&read_glyphs(&tables).unwrap());
    let written = write_glyphs(&shapes).unwrap();
    assert!(!written.is_long);
    assert_eq!(written.loca.len(), 10);
    assert_eq!(be_u16(&written.loca, 8).unwrap() as usize * 2, written.glyf.len());
    let points = GlyphPoints {
        shape: GlyphShape::Simple { on_curve: vec![true, false], instructions: vec![], overlaps: true },
        coords: vec![(70_000, 1), (2, 3), (0, 0), (0, 0), (0, 0), (0, 0)],
        end_pts: vec![1],
    };
    match build_glyph(&points) {
        Glyph::Simple(s) => {
            // Coordinates are stored in sixteen bits.
            assert_eq!(s.contours, vec![vec![
                Point { x: 4464, y: 1, on_curve: true },
                Point { x: 2, y: 3, on_curve: false },
            ]]);
            assert!(s.overlaps);
        },
        other => panic!("{other:?}"),
    }
}

// -------------------------------------------------------------------------------- metrics

#[test]
fn trailing_equal_advances_are_compressed() {
    assert_eq!(long_metric_count(&vec![(500, 0), (500, 1), (500, 2)]), 1);
    assert_eq!(long_metric_count(&vec![(400, 0), (500, 1), (500, 2)]), 2);
    assert_eq!(long_metric_count(&vec![(400, 0), (500, 1), (600, 2)]), 3);
    assert_eq!(long_metric_count(&vec![(500, 0)]), 1);
    assert_eq!(long_metric_count(&vec![]), 0);
}

#[test]
fn hmtx_round_trips_through_the_compression() {
    let metrics = vec![(400, -10), (500, 5), (500, 7), (500, 9)];
    let hmtx = build_hmtx(&metrics);
    // Two long metrics, then the bearings 7 and 9.
    assert_eq!(hmtx, vec![1, 144, 255, 246, 1, 244, 0, 5, 0, 7, 0, 9]);
}

#[test]
fn a_missing_adjustment_leaves_the_field_alone() {
    assert_eq!(adjust_i16(700, None), 700);
}

#[test]
fn unsigned_fields_cannot_be_pushed_below_zero() {
    assert_eq!(adjust_u16(10, Some(-100)), 0);
}

#[test]
fn signed_fields_saturate_rather_than_wrapping() {
    assert_eq!(adjust_i16(32000, Some(10_000)), 32767);
}

#[test]
fn a_font_without_mvar_reports_no_adjustments() {
    let tables = read_tables(&variable_font()).unwrap();
    assert!(metric_adjustments(&tables, &[16384, 0]).is_empty());
}

#[test]
fn mvar_adjusts_the_metrics_at_a_location() {
    let mut builder = FontBuilder::new();
    let record = |tag: &[u8; 4], inner: u16| ValueRecord::new(Tag::new(tag), 0, inner);
    let mvar = Mvar {
        version: Default::default(),
        value_record_size: 8,
        value_record_count: 2,
        item_variation_store: Some(store_with(&[40, 0])).into(),
        value_records: vec![record(b"hasc", 0), record(b"hdsc", 1)],
    };
    builder.add_table(&mvar).unwrap();
    let tables = read_tables(&builder.build()).unwrap();
    let hasc = u32::from_be_bytes(*b"hasc");
    assert_eq!(metric_adjustments(&tables, &[16384, 0]), vec![(hasc, 40)]);
    assert_eq!(metric_adjustments(&tables, &[8192, 0]), vec![(hasc, 20)]);
    assert!(metric_adjustments(&tables, &[0, 0]).is_empty());
    assert_eq!(nonzero_deltas(&vec![(1, Some(0)), (2, None), (3, Some(-4))]), vec![(3, -4)]);
}

// -------------------------------------------------------------------------- static fonts

#[test]
fn a_static_instance_sits_at_its_location() {
    // The whole weight: the square is 100 wider, and so is its advance.
    let tables = read_tables(&variable_font()).unwrap();
    let mut points = read_glyphs(&tables).unwrap();
    for (gid, p) in points.iter_mut().enumerate() {
        for tuple in read_tuples(&tables, gid as u32, p.coords.len()) {
            for (c, d) in p.coords.iter_mut().zip(tuple.deltas) {
                let (x, y) = d.unwrap_or((0, 0));
                *c = (c.0 + x, c.1 + y);
            }
        }
    }
    let shapes = build_shapes(&points);
    let metrics = metrics_of(&points, &shapes);
    let all = plans(pin(900.0), pin(100.0));
    let stat = build_stat(&tables, &all).unwrap().unwrap();
    assert_eq!(stat.tag, STAT);
    let adjustments = vec![(u32::from_be_bytes(*b"hasc"), 25)];
    let bytes =
        instantiate_static(&tables, &shapes, &metrics, &adjustments, Some(stat.bytes)).unwrap();
    let tags = table_tags(&bytes);
    for gone in ["fvar", "gvar", "avar", "HVAR", "MVAR", "cvar", "VVAR"] {
        assert!(!tags.contains(&gone.to_string()), "{gone}");
    }
    assert!(tags.contains(&"STAT".to_string()));
    let font = FontRef::new(&bytes).unwrap();
    assert_eq!(font.os2().unwrap().s_typo_ascender(), 825);
    let after = read_tables(&bytes).unwrap();
    let o = find_outlines(&after).unwrap();
    match read_outline(&o, 1) {
        Some(Outline::Simple(s)) => assert_eq!(s.bounds.x_max, 500),
        other => panic!("{other:?}"),
    }
    match read_outline(&o, 3) {
        Some(Outline::Composite(c)) => {
            assert_eq!(c.bounds, Bounds { x_min: 0, y_min: 0, x_max: 500, y_max: 640 });
        },
        other => panic!("{other:?}"),
    }
    assert_eq!(be_u16(find_table(&after, HMTX).unwrap(), 4).unwrap(), 550);

    // Of the axis values, the one out of reach is gone.
    let stat = font.stat().unwrap();
    let kept = stat.offset_to_axis_values().unwrap().unwrap().axis_values().iter().count();
    assert_eq!(kept, 2);
}

#[test]
fn a_font_without_outlines_cannot_be_instanced() {
    let mut builder = FontBuilder::new();
    common_tables(&mut builder);
    let tables = read_tables(&builder.build()).unwrap();
    assert!(matches!(read_glyphs(&tables), Err(SliceError::Unsupported(_))));
    assert!(matches!(outline_kind(&tables), Err(SliceError::Unsupported(_))));
    assert!(need_table(&tables, FVAR).is_err());
}

// -------------------------------------------------------------------------------- STAT

/// A STAT with two design axes and three axis values, the last naming axis index 2.
fn stat_with_a_dangling_axis_index() -> Vec<u8> {
    let axes = vec![
        wstat::AxisRecord {
            axis_tag: Tag::new(b"wght"),
            axis_name_id: NameId::new(256),
            axis_ordering: 0,
        },
        wstat::AxisRecord {
            axis_tag: Tag::new(b"ital"),
            axis_name_id: NameId::new(257),
            axis_ordering: 1,
        },
    ];
    let value = |index: u16, id: u16, v: f64| {
        wstat::AxisValue::format_1(
            index,
            AxisValueTableFlags::empty(),
            NameId::new(id),
            Fixed::from_f64(v),
        )
    };
    // Index 2, in a font whose design-axis array has two entries.
    let values = vec![value(0, 258, 400.0), value(1, 259, 1.0), value(2, 260, 700.0)];
    let stat = wstat::Stat::new(axes, values, NameId::new(2));
    let mut builder = FontBuilder::new();
    builder.add_table(&stat).unwrap();
    builder.build()
}

fn dangling_axis_values(font: &FontRef) -> usize {
    let stat = font.stat().expect("the output should still have a STAT");
    let axis_count = stat.design_axes().map(|a| a.len()).unwrap_or(0);
    let Some(Ok(subtables)) = stat.offset_to_axis_values() else {
        return 0;
    };
    subtables
        .axis_values()
        .iter()
        .flatten()
        .filter(|value| {
            let index = match value {
                read_fonts::tables::stat::AxisValue::Format1(v) => v.axis_index(),
                read_fonts::tables::stat::AxisValue::Format2(v) => v.axis_index(),
                read_fonts::tables::stat::AxisValue::Format3(v) => v.axis_index(),
                // Format 4 carries several; any one dangling condemns the record.
                read_fonts::tables::stat::AxisValue::Format4(v) => {
                    v.axis_values().iter().map(|r| r.axis_index()).max().unwrap_or(0)
                },
            };
            usize::from(index) >= axis_count
        })
        .count()
}

#[test]
fn the_source_really_does_carry_the_defect() {
    // Otherwise the test below could pass by testing nothing.
    let bytes = stat_with_a_dangling_axis_index();
    let font = FontRef::new(&bytes).unwrap();
    assert_eq!(
        dangling_axis_values(&font),
        1,
        "the hand-built fixture was supposed to contain exactly one dangling record"
    );
}

#[test]
fn a_dangling_axis_index_does_not_reach_the_output() {
    let bytes = stat_with_a_dangling_axis_index();
    let tables = read_tables(&bytes).unwrap();

    // No fvar here, so every axis STAT names is one the plan says nothing about: an unknown
    // tag is left alone, and an unresolvable *index* must not be treated the same way.
    let rebuilt = build_stat(&tables, &vec![])
        .expect("a STAT with design axes should produce one")
        .expect("building a STAT from a valid table should not fail");

    let mut builder = FontBuilder::new();
    builder.add_raw(Tag::new(b"STAT"), rebuilt.bytes);
    let out = builder.build();
    let out = FontRef::new(&out).unwrap();

    assert_eq!(
        dangling_axis_values(&out),
        0,
        "an AxisValue naming an axis the font does not have was copied through"
    );
    // The two well-formed records must survive; dropping everything would also pass the
    // assertion above and would be a different bug.
    let stat = out.stat().unwrap();
    let kept = stat
        .offset_to_axis_values()
        .and_then(|s| s.ok())
        .map(|s| s.axis_values().iter().flatten().count())
        .unwrap_or(0);
    assert_eq!(kept, 2, "the two valid axis values should have been kept");
}

#[test]
fn tags_are_read_from_text() {
    assert_eq!(parse_tag("wght"), Some(u32::from_be_bytes(*b"wght")));
    assert_eq!(parse_tag("a"), Some(u32::from_be_bytes(*b"a   ")));
    assert_eq!(parse_tag(""), None);
    assert_eq!(parse_tag("toolong"), None);
    assert_eq!(show_tag(u32::from_be_bytes(*b"OS/2")), "OS/2");
}

// ---------------------------------------------------------------------------- restricting

fn space(wght: AxisLimit, wdth: AxisLimit, wght_fixed: (i32, i32, i32)) -> Space {
    let change = |pairs: &[(i16, i16)]| MapChange { min: -16384, max: 16384, pairs: pairs.to_vec() };
    Space {
        plans: plans(wght, wdth),
        extents: vec![wght_fixed, (75 * 65536, 100 * 65536, 100 * 65536)],
        changes: vec![
            change(&[(-16384, -16384), (0, 0), (8192, 12288), (16384, 16384)]),
            change(&[(-16384, -16384), (0, 0), (16384, 16384)]),
        ],
        adjustments: vec![],
    }
}

#[test]
fn a_restricted_font_keeps_the_axes_that_survive() {
    let tables = read_tables(&variable_font()).unwrap();
    let points = read_restriction_glyphs(&tables).unwrap();
    let shapes = build_shapes(&points);
    let metrics = metrics_of(&points, &shapes);
    // The width is pinned at its default; the weight goes up to 650, where half of the
    // square's growth is left.
    let range = AxisLimit::Range { min: at(400.0), max: at(650.0) };
    let s = space(range, pin(100.0), (400 << 16, 400 << 16, 650 << 16));
    let tuple = RebasedTuple {
        axes: vec![AxisTent { axis: 0, start: 0, peak: 16384, end: 16384 }],
        deltas: vec![(0, 0), (50, 0), (50, 0), (0, 0), (0, 0), (50, 0), (0, 0), (0, 0)],
    };
    let still = RebasedTuple {
        axes: vec![AxisTent { axis: 0, start: 0, peak: 8192, end: 16384 }],
        deltas: vec![(0, 0); 8],
    };
    let on_pinned = RebasedTuple {
        axes: vec![AxisTent { axis: 1, start: 0, peak: 16384, end: 16384 }],
        deltas: vec![(9, 9); 8],
    };
    assert_eq!(slot_of(&s.plans, 0), Some(0));
    assert_eq!(slot_of(&s.plans, 1), None);
    let tuples = vec![vec![], vec![tuple, still, on_pinned], vec![], vec![]];
    let placed = place_tuples(&s.plans, &tuples[1]);
    assert_eq!(placed.len(), 1);
    assert_eq!(placed[0].tents, vec![(16384, Some((0, 16384)))]);

    let source = segment_maps(&tables);
    assert_eq!(source.as_ref().unwrap().0[0].len(), 4);
    let bytes = instantiate_partial(&tables, &source, &s, &shapes, &metrics, &tuples).unwrap();
    let font = loaded(bytes.clone());
    let axes = font.axes().unwrap();
    assert_eq!(axes.len(), 1);
    assert_eq!(axes[0].tag, "wght");
    assert_eq!(
        (value(axes[0].min), value(axes[0].default), value(axes[0].max)),
        (400.0, 400.0, 650.0)
    );
    // The instance beyond the new range is gone.
    let read = FontRef::new(&bytes).unwrap();
    assert_eq!(read.fvar().unwrap().instances().unwrap().iter().count(), 1);
    let tables = read_tables(&bytes).unwrap();
    let tuples = read_tuples(&tables, 1, 8);
    assert_eq!(tuples.len(), 1);
    assert_eq!(tuples[0].axes, vec![AxisTent { axis: 0, start: 0, peak: 16384, end: 16384 }]);
    assert_eq!(tuples[0].deltas[1], Some((50, 0)));
    assert!(read_tuples(&tables, 2, 8).is_empty());
    assert!(find_table(&tables, STAT).is_some());
}

#[test]
fn nothing_left_to_vary_means_no_gvar() {
    let s = space(AxisLimit::Full, pin(100.0), (400 << 16, 400 << 16, 900 << 16));
    assert!(build_gvar(&s.plans, &vec![vec![], vec![]]).is_none());
    // What counts is the size that the deltas are packed into: a byte each and one for every
    // sixty-four, along both axes of the outline.
    let many = |count: usize| RebasedTuple {
        axes: vec![AxisTent { axis: 0, start: 0, peak: 16384, end: 16384 }],
        deltas: vec![(1, 1); count],
    };
    assert!(matches!(build_gvar(&s.plans, &vec![vec![many(20_000)]]), Some(Ok(_))));
    assert!(matches!(
        build_gvar(&s.plans, &vec![vec![many(40_000)]]),
        Some(Err(SliceError::Write(_)))
    ));
}

#[test]
fn variable_positioning_is_refused() {
    let mut tables = read_tables(&variable_font()).unwrap();
    let points = read_restriction_glyphs(&tables).unwrap();
    let shapes = build_shapes(&points);
    let metrics = metrics_of(&points, &shapes);
    let s = space(AxisLimit::Full, pin(100.0), (400 << 16, 400 << 16, 900 << 16));
    let source = segment_maps(&tables);
    let tuples = vec![vec![], vec![], vec![], vec![]];
    let file = instantiate_partial(&tables, &source, &s, &shapes, &metrics, &tuples).unwrap();
    assert!(find_table(&read_tables(&file).unwrap(), FVAR).is_some());
    // A GDEF of version 1.3 with a variation store.
    let mut gdef = vec![0, 1, 0, 3];
    gdef.extend([0; 10]);
    gdef.extend([0, 0, 0, 18]);
    tables.push(FontTable { tag: u32::from_be_bytes(*b"GDEF"), bytes: gdef });
    for error in [
        instantiate_partial(&tables, &source, &s, &shapes, &metrics, &tuples).unwrap_err(),
        instantiate_partial_cff2(&tables, &source, &s, vec![], &metrics, &None).unwrap_err(),
        read_restriction_glyphs(&tables).unwrap_err(),
    ] {
        assert!(error.message(&vec![]).contains("variable positioning"), "{error:?}");
    }
    // A font without TrueType outlines is refused, too.
    let bare: Vec<FontTable> = vec![];
    let error = instantiate_partial(&bare, &None, &s, &shapes, &metrics, &tuples).unwrap_err();
    assert!(error.message(&vec![]).contains("TrueType outlines"));
}

#[test]
fn an_axis_that_is_pinned_needs_no_record() {
    let mut builder = FontBuilder::new();
    common_tables(&mut builder);
    let fvar = Fvar::new(AxisInstanceArrays::new(
        vec![axis_record(b"wght", 400.0, 400.0, 900.0, 256)],
        vec![],
    ));
    builder.add_table(&fvar).unwrap();
    let tables = read_tables(&builder.build()).unwrap();
    let s = space(AxisLimit::Full, pin(100.0), (400 << 16, 400 << 16, 900 << 16));
    assert!(build_fvar(&tables, &s.plans, &s.extents).is_ok());
    let s = space(AxisLimit::Full, AxisLimit::Full, (400 << 16, 400 << 16, 900 << 16));
    match build_fvar(&tables, &s.plans, &s.extents) {
        Err(SliceError::Read(text)) => assert_eq!(text, "fvar axis disappeared while instancing"),
        other => panic!("{other:?}"),
    }
}

#[test]
fn segment_maps_need_their_fixed_points() {
    assert!(is_segment_map(&[(-16384, -16384), (0, 0), (8192, 12288), (16384, 16384)]));
    assert!(!is_segment_map(&[(-16384, -16384), (0, 100), (16384, 16384)]));
    assert!(!is_segment_map(&[(-16384, -16384), (16384, 16384)]));
    assert!(!is_segment_map(&[]));
}

#[test]
fn a_font_has_fewer_than_4096_tables() {
    let table = |tag: u32| FontTable { tag, bytes: vec![0, 0, 0, 0] };
    let tables: Vec<FontTable> = (0..4095).map(table).collect();
    assert_eq!(read_tables(&assemble(&tables).unwrap()).unwrap().len(), 4095);
    let tables: Vec<FontTable> = (0..4096).map(table).collect();
    assert!(matches!(assemble(&tables), Err(SliceError::Write(_))));
}

#[test]
fn a_post_table_gets_the_pool_that_it_lacks() {
    // Version 2.0 with one glyph, whose name is a standard one: no string follows.
    let mut bytes = vec![0, 2, 0, 0];
    bytes.extend([0; 28]);
    bytes.extend([0, 1, 0, 0]);
    let post = owned_post(&bytes).unwrap();
    assert_eq!(post.num_glyphs, Some(1));
    assert_eq!(post.string_data, Some(vec![]));
    assert_eq!(write_fonts::dump_table(&post).unwrap(), bytes);
    // Version 3.0 has neither, and stays without.
    let mut bytes = vec![0, 3, 0, 0];
    bytes.extend([0; 28]);
    let post = owned_post(&bytes).unwrap();
    assert!(post.num_glyphs.is_none() && post.string_data.is_none());
    assert!(owned_post(&bytes[..31]).is_none());
}

#[test]
fn merged_cubic_contours_are_judged() {
    let contour = || CubicContour { start: (0, 0), segments: vec![] };
    assert!(matches!(simplify_cubic(2, vec![], true), CubicMerge::Failed(_)));
    assert!(matches!(simplify_cubic(1, vec![contour()], true), CubicMerge::Unneeded));
    assert!(matches!(simplify_cubic(1, vec![contour()], false), CubicMerge::Merged(_)));
    assert!(matches!(simplify_cubic(2, vec![contour()], true), CubicMerge::Merged(_)));
}

#[test]
fn feature_variations_that_are_too_large_are_refused() {
    let resolved = |count: usize| {
        let mut gsub = gsub_table();
        let feature = &mut gsub.feature_list.as_mut().unwrap().feature_records[0].feature;
        feature.lookup_list_indices = vec![0; count];
        let mut tables = read_tables(&variable_font()).unwrap();
        for table in tables.iter_mut() {
            if table.tag == GSUB {
                table.bytes = write_fonts::dump_table(&gsub).unwrap();
            }
        }
        let bytes = assemble(&tables).unwrap();
        let all = plans(AxisLimit::Full, AxisLimit::Full);
        let whole = Triple { min: -16384, default: 0, max: 16384 };
        let spans = Spans { gsub: vec![], gpos: vec![] };
        instantiate_feature_variations(&bytes, &all, &vec![whole, whole], &spans)
    };
    // The list of lookups takes two bytes each; everything else is small.
    assert!(resolved(32_700).is_ok());
    match resolved(32_768) {
        Err(SliceError::Write(text)) => assert!(text.contains("64 KiB"), "{text}"),
        other => panic!("{other:?}"),
    }
}

#[test]
fn segment_maps_follow_the_axes() {
    let maps = vec![vec![(-16384, -16384), (0, 0), (8192, 12288), (16384, 16384)], vec![]];
    let s = space(AxisLimit::Full, pin(100.0), (400 << 16, 400 << 16, 900 << 16));
    let kept = new_segment_maps(&maps, &s.plans, &vec![
        MapChange { min: -16384, max: 16384, pairs: maps[0].clone() },
        MapChange { min: 0, max: 0, pairs: vec![] },
    ]);
    assert_eq!(kept.len(), 1);
    assert_eq!(kept[0], maps[0]);
    assert_eq!(identity_segment_map(), vec![(-16384, -16384), (0, 0), (16384, 16384)]);
    // A second version of the table warps further, which is refused.
    let changes = vec![
        MapChange { min: -16384, max: 16384, pairs: maps[0].clone() },
        MapChange { min: 0, max: 0, pairs: vec![] },
    ];
    let written = build_avar(&Some((maps.clone(), false)), &s.plans, &changes);
    let table = written.unwrap().unwrap();
    let mut expected: Vec<u8> = vec![0, 1, 0, 0, 0, 0, 0, 1, 0, maps[0].len() as u8];
    for (from, to) in &maps[0] {
        expected.extend(from.to_be_bytes());
        expected.extend(to.to_be_bytes());
    }
    assert_eq!(table.bytes, expected);
    assert_eq!(segment_maps(&vec![table]), Some((vec![maps[0].clone()], false)));
    assert!(matches!(
        build_avar(&Some((maps, true)), &s.plans, &changes),
        Some(Err(SliceError::Unsupported(_)))
    ));
    assert!(build_avar(&None, &s.plans, &changes).is_none());
}

#[test]
fn an_fvar_without_the_axis_is_an_error() {
    let mut builder = FontBuilder::new();
    common_tables(&mut builder);
    let tables = read_tables(&builder.build()).unwrap();
    let s = space(AxisLimit::Full, AxisLimit::Full, (400 << 16, 400 << 16, 900 << 16));
    assert!(build_fvar(&tables, &s.plans, &s.extents).is_err());
    assert!(refuse_unsupported_variation_tables(&tables).is_ok());
}

#[test]
fn tents_and_supports_are_sorted_out() {
    let fate = |a: f64, b: f64, c: f64| tent_fate(at(a), at(b), at(c));
    assert_eq!(fate(0.0, 0.0, 1.0), TentFate::AxisDropped);
    assert_eq!(fate(0.5, 0.2, 1.0), TentFate::TupleDropped);
    assert_eq!(fate(-1.0, 0.5, 1.0), TentFate::TupleDropped);
    assert_eq!(fate(0.0, 0.5, 1.0), TentFate::Rebased);
    let tent = |axis: usize, peak: i16| AxisTent { axis, start: 0, peak, end: 16384 };
    let groups = group_by_support(&vec![
        vec![tent(0, 16384)],
        vec![tent(0, 8192)],
        vec![tent(0, 16384)],
    ]);
    assert_eq!(groups, vec![vec![1], vec![0, 2]]);
    assert_eq!(interpolation_runs(&vec![3, 5], 10), vec![(0, 4), (4, 6), (6, 7), (7, 8), (8, 9), (9, 10)]);
}

// ------------------------------------------------------------------------------- features

fn lookups(bytes: &[u8]) -> Vec<u16> {
    let font = FontRef::new(bytes).unwrap();
    let gsub = font.gsub().unwrap();
    let list = gsub.feature_list().unwrap();
    let record = list.feature_records()[0];
    let feature = record.feature(list.offset_data()).unwrap();
    feature.lookup_list_indices().iter().map(|i| i.get()).collect()
}

fn varies(bytes: &[u8]) -> bool {
    has_feature_variations(&read_tables(bytes).unwrap())
}

fn spans(gsub: Vec<Vec<Span>>) -> Spans {
    Spans { gsub, gpos: vec![] }
}

#[test]
fn a_substitution_that_applies_is_baked_in() {
    let font = variable_font();
    assert!(varies(&font));
    let heavy = Triple { min: 16384, default: 16384, max: 16384 };
    let normal = Triple { min: 0, default: 0, max: 0 };
    let all = plans(pin(900.0), pin(100.0));
    let out = instantiate_feature_variations(&font, &all, &vec![heavy, normal], &spans(vec![]))
        .unwrap();
    assert!(!varies(&out));
    assert_eq!(lookups(&out), vec![7]);
}

#[test]
fn a_substitution_that_does_not_apply_stays_out() {
    let font = variable_font();
    let light = Triple { min: 4096, default: 4096, max: 4096 };
    let normal = Triple { min: 0, default: 0, max: 0 };
    let all = plans(pin(500.0), pin(100.0));
    let out = instantiate_feature_variations(&font, &all, &vec![light, normal], &spans(vec![]))
        .unwrap();
    assert!(!varies(&out));
    assert_eq!(lookups(&out), Vec::<u16>::new());
}

#[test]
fn conditions_on_a_surviving_axis_are_kept_and_renumbered() {
    // The weight goes up to where the coordinate is 0.75; the condition starts at 0.5, which
    // is two thirds of the new extent.
    let font = variable_font();
    let tables = read_tables(&font).unwrap();
    let range = AxisLimit::Range { min: at(400.0), max: at(800.0) };
    let all = plans(range, pin(100.0));
    let triples = vec![
        Triple { min: 0, default: 0, max: 12288 },
        Triple { min: 0, default: 0, max: 0 },
    ];
    let ends = feature_ends(&tables, GSUB, &all, &triples);
    assert_eq!(ends, vec![vec![Some((0, 8192, 12288))]]);
    assert!(feature_ends(&tables, GPOS, &all, &triples).is_empty());
    let new = Span { low: 10923, high: 16384, is_whole: false };
    let out = instantiate_feature_variations(&font, &all, &triples, &spans(vec![vec![new]])).unwrap();
    assert_eq!(lookups(&out), Vec::<u16>::new());
    let read = FontRef::new(&out).unwrap();
    let gsub = read.gsub().unwrap();
    let variations = gsub.feature_variations().unwrap().unwrap();
    let records = variations.feature_variation_records();
    assert_eq!(records.len(), 1);
    let set = records[0].condition_set(variations.offset_data()).unwrap().unwrap();
    match set.conditions().get(0).unwrap() {
        read_fonts::tables::layout::Condition::Format1AxisRange(c) => {
            assert_eq!(c.axis_index(), 0);
            assert_eq!(c.filter_range_min_value().to_bits(), 10923);
        },
        _ => panic!("another format"),
    }
    // A font without feature variations comes back as it was.
    let plain = static_cff2();
    assert_eq!(
        instantiate_feature_variations(&plain, &all, &triples, &spans(vec![])).unwrap(),
        plain
    );
}

// ------------------------------------------------------------------------------- overlaps

#[test]
fn overlap_removal_refuses_a_variable_font() {
    // gvar deltas are indexed by point number, and merging contours renumbers points, so this
    // has to be refused rather than silently producing a corrupt font.
    let error = remove_overlaps(&variable_font(), &Merges::Quadratic(vec![])).unwrap_err();
    let message = error.message(&vec![]);
    assert!(
        message.contains("static"),
        "expected a message about needing a static font, got: {message}"
    );
}

#[test]
fn overlap_removal_leaves_a_usable_font() {
    let p = |x: i16, y: i16| Point { x, y, on_curve: true };
    let merged = vec![
        vec![p(0, 0), p(300, 0), p(300, 300), p(0, 300), p(0, 0)],
        vec![p(5, 5), p(5, 5)],
    ];
    let merges = vec![
        Merge::Unneeded,
        Merge::Merged(merged),
        Merge::Failed("the merge produced no contours".to_string()),
    ];
    let before = read_tables(&static_font()).unwrap();
    assert_eq!(check_simplifiable(&before).unwrap(), (OutlineKind::Glyf, 4));
    let (bytes, report) =
        remove_overlaps(&static_font(), &Merges::Quadratic(merges)).unwrap();
    assert_eq!(report.modified, vec![1]);
    assert_eq!(report.untouched, 2);
    assert_eq!(
        report.failed,
        vec![(
            2,
            "failed to remove overlaps from glyph 2: the merge produced no contours".to_string()
        )]
    );
    assert_eq!(
        report.summary(),
        "1 glyph simplified, 2 left as they were, 1 could not be processed"
    );
    let tables = read_tables(&bytes).unwrap();
    let o = find_outlines(&tables).unwrap();
    match read_outline(&o, 1) {
        Some(Outline::Simple(s)) => {
            assert_eq!(s.points.len(), 4, "the closing point is redundant");
            assert!(s.instructions.is_empty());
            assert_eq!(s.bounds, Bounds { x_min: 0, y_min: 0, x_max: 300, y_max: 300 });
        },
        other => panic!("{other:?}"),
    }
    match read_outline(&o, 2) {
        Some(Outline::Simple(s)) => {
            assert_eq!(s.points.len(), 4);
            assert!(s.instructions.is_empty(), "hinting goes everywhere");
        },
        other => panic!("{other:?}"),
    }
}

#[test]
fn merges_are_only_kept_where_they_matter() {
    let p = |x: i16, y: i16| Point { x, y, on_curve: true };
    let square = || vec![p(0, 0), p(10, 0), p(10, 10)];
    assert!(!contours_can_overlap(1, false, true));
    assert!(contours_can_overlap(1, true, false));
    assert!(contours_can_overlap(2, false, true));
    assert!(!contours_can_overlap(2, false, false));
    assert!(matches!(simplify_glyph(2, vec![], true), Merge::Failed(_)));
    assert!(matches!(simplify_glyph(1, vec![square()], true), Merge::Unneeded));
    assert!(matches!(simplify_glyph(2, vec![square()], true), Merge::Merged(_)));
    assert!(matches!(simplify_glyph(1, vec![square()], false), Merge::Merged(_)));
    assert!(matches!(paths_to_simple_glyph(&vec![vec![p(1, 1)]]), Glyph::Empty));
    let report = OverlapReport { modified: vec![], untouched: 3, failed: vec![] };
    assert_eq!(report.summary(), "0 glyphs simplified, 3 left as they were");
}

// ---------------------------------------------------------------------------------- CFF2

fn static_cff2() -> Vec<u8> {
    let tables = read_tables(&cff2_font()).unwrap();
    let cff2 = Cff2Builder {
        charstrings: vec![vec![], vec![139, 22], vec![], vec![]],
        font_dicts: vec![FontDictBuilder::default()],
        ..Default::default()
    }
    .build()
    .unwrap();
    let hvar = find_table(&tables, HVAR).cloned();
    let metrics = advance_metrics(
        find_table(&tables, HMTX).unwrap(),
        4,
        &hvar,
        &vec![vec![0, 78, 0, 0]],
        4,
    );
    assert_eq!(metrics, vec![(500, 0), (528, 0), (200, 10), (450, 0)]);
    instantiate_static_cff2(&tables, cff2, &metrics, &vec![], None).unwrap()
}

#[test]
fn a_static_cff2_instance_stays_cff2() {
    let tables = read_tables(&cff2_font()).unwrap();
    assert_eq!(outline_kind(&tables).unwrap(), OutlineKind::Cff2);
    assert_eq!(
        outline_kind(&read_tables(&variable_font()).unwrap()).unwrap(),
        OutlineKind::Glyf
    );
    let bytes = static_cff2();
    let font = FontRef::new(&bytes).unwrap();
    assert!(font.fvar().is_err());
    assert!(font.hvar().is_err());
    assert!(font.glyf().is_err());
    assert!(font.cff2().is_ok());
    let after = read_tables(&bytes).unwrap();
    assert_eq!(be_u16(find_table(&after, HMTX).unwrap(), 4).unwrap(), 528);
}

#[test]
fn a_restricted_cff2_font_keeps_a_store_for_its_advances() {
    let tables = read_tables(&cff2_font()).unwrap();
    let hvar = find_table(&tables, HVAR).unwrap();
    let store = hvar_store(hvar).unwrap();
    let subtables = slice_core::varstore::read_subtables(&store).unwrap();
    assert_eq!(subtables[0].as_ref().unwrap().rows[1], vec![130]);
    let range = AxisLimit::Range { min: at(400.0), max: at(700.0) };
    let s = space(range, pin(100.0), (400 << 16, 400 << 16, 700 << 16));
    let new_store = slice_core::varstore::rebuild(
        &s.plans,
        vec![Some(slice_core::varstore::Subtable {
            item_count: 4,
            regions: vec![vec![(0, 16384, 16384)]],
            rows: vec![vec![0], vec![78], vec![0], vec![0]],
        })],
    )
    .unwrap();
    let cff2 = find_table(&tables, slice_core::tables::CFF2).unwrap().clone();
    let metrics = vec![(500, 0), (450, 0), (200, 10), (450, 0)];
    let source = segment_maps(&tables);
    let bytes =
        instantiate_partial_cff2(&tables, &source, &s, cff2.clone(), &metrics, &new_store).unwrap();
    let after = read_tables(&bytes).unwrap();
    assert_eq!(find_table(&after, slice_core::tables::CFF2), Some(&cff2));
    let store = hvar_store(find_table(&after, HVAR).unwrap()).unwrap();
    let rows = &slice_core::varstore::read_subtables(&store).unwrap()[0];
    assert_eq!(rows.as_ref().unwrap().rows[1], vec![78]);
    assert_eq!(loaded(bytes).axes().unwrap().len(), 1);
}

#[test]
fn overlap_removal_refuses_a_variable_cff2_font() {
    // A CFF2 charstring's blends are stated against the variation store, and merging contours
    // throws the operators that carry them away.
    let error = remove_overlaps(&cff2_font(), &Merges::Cubic(vec![])).unwrap_err();
    let message = error.message(&vec![]);
    assert!(
        message.contains("static"),
        "expected a message about needing a static font, got: {message}"
    );
}

#[test]
fn overlap_removal_needs_outlines() {
    let mut tables = read_tables(&static_cff2()).unwrap();
    tables.retain(|t| t.tag != slice_core::tables::CFF2);
    let error = remove_overlaps(&assemble(&tables).unwrap(), &Merges::Cubic(vec![])).unwrap_err();
    assert!(error.message(&vec![]).contains("this font has neither"), "{error:?}");
}

/// A static font with CFF2 outlines: an H whose bar overlaps both stems in glyph 1, a hinted
/// glyph that is drawn by a subroutine in glyph 2, and one with a hint mask in glyph 3.
fn overlapping_cff2() -> Vec<u8> {
    let one = 65536;
    let rectangle = |x: i32, y: i32, x2: i32, y2: i32| CubicContour {
        start: (x * one, y * one),
        segments: vec![
            Segment::Line { x: x2 * one, y: y * one },
            Segment::Line { x: x2 * one, y: y2 * one },
            Segment::Line { x: x * one, y: y2 * one },
        ],
    };
    let h = draw_charstring(&vec![
        rectangle(0, 0, 100, 400),
        rectangle(200, 0, 300, 400),
        rectangle(50, 150, 250, 250),
    ]);
    let cff2 = Cff2Builder {
        global_subrs: vec![vec![149, 139, 21, 229, 139, 5, 139, 229, 5]],
        charstrings: vec![
            vec![],
            h,
            vec![139, 149, 1, 32, 29],
            vec![139, 149, 18, 139, 149, 19, 0xc0, 149, 139, 21, 229, 229, 5, 139, 49, 5],
        ],
        font_dicts: vec![FontDictBuilder::default()],
        ..Default::default()
    }
    .build()
    .unwrap();
    let mut tables = read_tables(&static_cff2()).unwrap();
    for table in tables.iter_mut() {
        if table.tag == slice_core::tables::CFF2 {
            table.bytes = cff2.clone();
        }
    }
    assemble(&tables).unwrap()
}

/// The outline of the H as one contour.
fn merged_h() -> CubicContour {
    let one = 65536;
    let corners = [
        (100, 0),
        (100, 150),
        (200, 150),
        (200, 0),
        (300, 0),
        (300, 400),
        (200, 400),
        (200, 250),
        (100, 250),
        (100, 400),
        (0, 400),
    ];
    let line = |(x, y): &(i32, i32)| Segment::Line { x: x * one, y: y * one };
    CubicContour { start: (0, 0), segments: corners.iter().map(line).collect() }
}

#[test]
fn the_filled_region_survives_overlap_removal_on_cff2() {
    // The `H` in this font has its crossbar overlapping both stems, so merging it is a real
    // union rather than a no-op.
    let instanced = overlapping_cff2();
    let merges = Merges::Cubic(vec![
        CubicMerge::Unneeded,
        CubicMerge::Merged(vec![merged_h()]),
        CubicMerge::Unneeded,
        CubicMerge::Unneeded,
    ]);
    let (simplified, report) =
        remove_overlaps(&instanced, &merges).expect("overlap removal should run");
    assert!(report.failed.is_empty(), "{:?}", report.failed);
    assert!(!report.modified.is_empty());
    let after_font = FontRef::new(&simplified).expect("the result should parse");
    assert!(
        after_font.cff2().is_ok() && after_font.glyf().is_err(),
        "overlap removal must not change the outline format"
    );
    let before = drawings(&instanced);
    let after = drawings(&simplified);
    assert_eq!(before.len(), after.len());
    for (gid, (before, after)) in before.iter().zip(&after).enumerate() {
        let (before, after) = (before.path(), after.path());
        for i in 0..=60 {
            for j in 0..=60 {
                let point =
                    Point2::new(-4.5 + 310.0 * f64::from(i) / 60.0, -4.5 + 410.0 * f64::from(j) / 60.0);
                assert_eq!(
                    before.winding(point) != 0,
                    after.winding(point) != 0,
                    "glyph {gid} at {point:?}"
                );
            }
        }
    }
    let filled = |x: f64, y: f64| after[1].path().winding(Point2::new(x, y)) != 0;
    assert!(filled(150.5, 200.5) && filled(50.5, 10.5) && !filled(150.5, 10.5));
}

#[test]
fn cff2_glyphs_that_are_not_merged_keep_their_outlines() {
    let before = overlapping_cff2();
    let read = |bytes: &[u8]| {
        let tables = read_tables(bytes).unwrap();
        read_cff2(find_table(&tables, slice_core::tables::CFF2).unwrap()).unwrap()
    };
    let plain = vec![
        vec![],
        read(&before).charstrings[1].clone(),
        vec![149, 139, 21, 229, 139, 5, 139, 229, 5],
        vec![149, 139, 21, 229, 229, 5, 139, 49, 5],
    ];
    // Nothing is merged where there are no entries, and a glyph that could not be handled
    // stays as it was, too.
    let failed = || CubicMerge::Failed("why".to_string());
    for (merges, summary) in [
        (Merges::Cubic(vec![]), "0 glyphs simplified, 4 left as they were"),
        (Merges::Quadratic(vec![]), "0 glyphs simplified, 4 left as they were"),
        (
            Merges::Cubic(vec![failed(), failed(), failed(), failed()]),
            "0 glyphs simplified, 0 left as they were, 4 could not be processed",
        ),
    ] {
        let (out, report) = remove_overlaps(&before, &merges).unwrap();
        assert_eq!(report.summary(), summary);
        // The subroutine is inlined, and the hints are gone.
        assert_eq!(read(&out).charstrings, plain);
        assert!(read(&out).global_subrs.is_empty());
        assert_eq!(drawings(&out), drawings(&before));
        let (old, new) = (read_tables(&before).unwrap(), read_tables(&out).unwrap());
        assert_eq!(find_table(&old, HMTX), find_table(&new, HMTX));
        assert_eq!(old.len(), new.len());
    }
    assert_eq!(strip_hints(&[139, 149, 3, 139, 20, 0xff, 149, 4]), vec![149, 4]);
    // A glyph whose subroutine does not exist cannot be kept.
    let broken = Cff2Builder {
        charstrings: vec![vec![32, 29]],
        font_dicts: vec![FontDictBuilder::default()],
        ..Default::default()
    }
    .build()
    .unwrap();
    let source = read_cff2(&broken).unwrap();
    assert!(matches!(keep_charstring(&source, 0), Err(SliceError::Read(_))));
}

#[test]
fn cff2_glyphs_are_drawn_anew() {
    let one = 65536;
    let contour = || CubicContour {
        start: (10 * one, 0),
        segments: vec![
            Segment::Line { x: 100 * one, y: 0 },
            Segment::Curve {
                x1: 100 * one,
                y1: 50 * one,
                x2: 60 * one,
                y2: 100 * one + one / 2,
                x: 10 * one,
                y: 100 * one,
            },
        ],
    };
    let program = draw_charstring(&vec![contour()]);
    assert_eq!(
        program,
        vec![
            149, 139, 21, // 10 0 rmoveto
            229, 139, 5, // 90 0 rlineto
            139, 189, 99, 255, 0, 50, 128, 0, 89, 255, 255, 255, 128, 0, 8,
        ]
    );
    let bytes = static_cff2();
    let tables = read_tables(&bytes).unwrap();
    assert_eq!(check_simplifiable(&tables).unwrap(), (OutlineKind::Cff2, 4));
    let merges = vec![
        CubicMerge::Unneeded,
        CubicMerge::Merged(vec![contour()]),
        CubicMerge::Failed("why".to_string()),
    ];
    let (out, report) = remove_overlaps(&bytes, &Merges::Cubic(merges)).unwrap();
    assert_eq!(report.summary(), "1 glyph simplified, 2 left as they were, 1 could not be processed");
    assert_eq!(
        report.failed,
        vec![(2, "failed to remove overlaps from glyph 2: why".to_string())]
    );
    let after = read_tables(&out).unwrap();
    let redrawn = read_cff2(find_table(&after, slice_core::tables::CFF2).unwrap()).unwrap();
    assert_eq!(redrawn.charstrings[1], program);
    assert_eq!(redrawn.charstrings.len(), 4);
    assert!(FontRef::new(&out).unwrap().glyf().is_err());
}

// ----------------------------------------------------------------------------------- jobs

fn started(job: &SliceJob, font: &SliceFont) -> SliceRun {
    match job.run(font) {
        Ok(run) => run,
        Err(e) => panic!("{e:?}"),
    }
}

/// A job that pins every axis to its default.
fn pin_all(font: &SliceFont) -> SliceJob {
    let axes = font.axes().unwrap();
    SliceJob {
        limits: axes.iter().map(|a| AxisLimit::Pin(a.default)).collect(),
        names: font.name_edits(),
        bits: font.bit_flags(),
        remove_overlaps: false,
        format: OutputFormat::Sfnt,
    }
}

fn finished(job: &SliceJob, font: &SliceFont) -> Vec<u8> {
    let mut run = started(job, font);
    let shown = vec![
        ("400".to_string(), "400".to_string()),
        ("100".to_string(), "100".to_string()),
    ];
    run.instanced(static_font(), &shown);
    let same = run.bytes.clone();
    run.resolved(same);
    match run.finish(job, Some(400), Some(5), None) {
        Ok(output) => output.bytes,
        Err(e) => panic!("{e:?}"),
    }
}

#[test]
fn asking_for_the_original_design_space_is_refused() {
    let font = loaded(variable_font());
    let job = SliceJob::new(&font).unwrap();
    match job.run(&font) {
        Err(err) => assert!(matches!(err, SliceError::NothingToDo), "got {err:?}"),
        Ok(_) => panic!("should be refused"),
    }
}

#[test]
fn overlap_removal_alone_is_a_real_request() {
    let font = loaded(variable_font());
    let mut job = SliceJob::new(&font).unwrap();
    job.remove_overlaps = true;
    let mut run = started(&job, &font);
    assert_eq!(run.instancing, Instancing::Copy);
    // The font goes uncut into what follows.
    assert_eq!(run.next(), Action::Cut);
    let shown = vec![(String::new(), String::new()), (String::new(), String::new())];
    run.instanced(vec![], &shown);
    assert_eq!(run.bytes, variable_font());
    assert_eq!(run.next(), Action::Resolve);
}

#[test]
fn an_out_of_range_axis_value_is_reported_against_that_axis() {
    let font = loaded(variable_font());
    let mut job = pin_all(&font);
    job.limits[0] = pin(5000.0);
    match job.run(&font) {
        Err(err) => {
            let shown: Vec<String> =
                err.coordinates().iter().map(|b| f64::from_bits(*b).to_string()).collect();
            let message = err.message(&shown);
            assert!(message.contains("wght"), "got {message}");
        },
        Ok(_) => panic!("should be refused"),
    }
    job.limits.pop();
    match job.validate(&font.axes().unwrap()) {
        Err(SliceError::Unsupported(text)) => {
            assert_eq!(text, "the job describes 1 axes but the font has 2");
        },
        other => panic!("{other:?}"),
    };
}

#[test]
fn a_job_decides_how_the_font_is_cut() {
    let font = loaded(variable_font());
    let mut job = pin_all(&font);
    assert!(job.is_fully_pinned());
    assert_eq!(started(&job, &font).instancing, Instancing::Static);
    job.limits[0] = AxisLimit::Full;
    assert!(!job.is_fully_pinned());
    job.remove_overlaps = true;
    let mut run = started(&job, &font);
    assert_eq!(run.instancing, Instancing::Partial);
    assert_eq!(run.names_before.len(), 9);
    let location = final_location(&run.plans);
    assert_eq!(location[0].0, "wght");
    assert_eq!(value(location[0].1), 400.0);
    let shown = vec![
        ("400".to_string(), "900".to_string()),
        ("100".to_string(), "100".to_string()),
    ];
    run.instanced(static_font(), &shown);
    assert_eq!(run.notes, vec!["Restricted design space to wght=400:900 wdth=100"]);
    run.resolved(variable_font());
    assert_eq!(run.notes[1], "Resolved feature variations");
    let report = OverlapReport { modified: vec![1, 2], untouched: 1, failed: vec![] };
    assert_eq!(run.next(), Action::RemoveOverlaps);
    run.simplified(static_font(), report);
    assert_eq!(run.next(), Action::Finish);
    assert_eq!(run.notes[2], "Overlaps: 2 glyphs simplified, 1 left as they were");
    job.format = OutputFormat::Woff2;
    match run.finish(&job, None, None, None) {
        Ok(output) => {
            assert_eq!(
                output.notes[3..],
                [
                    "Applied name records and bit flags",
                    "Recalculated metrics and pruned unused name records",
                    "Wrapped as WOFF2"
                ]
            );
            assert_eq!(&output.bytes[..4], b"wOF2");
            assert_eq!(output.overlaps.unwrap().modified, vec![1, 2]);
        },
        Err(e) => panic!("{e:?}"),
    }
}

#[test]
fn name_edits_reach_the_output() {
    let font = loaded(variable_font());
    let mut job = pin_all(&font);
    job.names.set(1, "Sliced Family");
    job.names.set(2, "Bold");
    job.names.set(16, "Typographic Family");
    let result = loaded(finished(&job, &font));
    let edits = result.name_edits();
    assert_eq!(edits.get(1), Some("Sliced Family"));
    assert_eq!(edits.get(2), Some("Bold"));
    assert_eq!(edits.get(16), Some("Typographic Family"));
    assert_eq!(result.name_string(256), None, "the names of the axes are pruned");
}

#[test]
fn clearing_an_optional_name_removes_the_record() {
    let font = loaded(variable_font());
    let mut job = pin_all(&font);
    job.names.set(16, "Typographic Family");
    let with_record = loaded(finished(&job, &font));
    assert!(with_record.name_edits().get(16).is_some());

    job.names.set(16, "");
    let without = loaded(finished(&job, &font));
    assert!(
        without.name_edits().get(16).is_none(),
        "a cleared optional record should be deleted, not left behind"
    );
}

#[test]
fn bit_flags_reach_the_output() {
    let font = loaded(variable_font());
    let mut job = pin_all(&font);
    job.bits.set_fs_selection_bit(5, true); // BOLD
    job.bits.set_fs_selection_bit(6, false); // not REGULAR
    job.bits.set_mac_style_bit(0, true); // BOLD

    let result = loaded(finished(&job, &font));
    let bits = result.bit_flags();
    assert!(bits.fs_selection_bit(5));
    assert!(!bits.fs_selection_bit(6));
    assert!(bits.mac_style_bit(0));
    assert!(bits.warnings().is_empty(), "{:?}", bits.warnings());
}

#[test]
fn woff_output_is_a_woff_file_that_reads_back() {
    let font = loaded(variable_font());
    let mut job = pin_all(&font);
    job.format = OutputFormat::Woff;
    let bytes = finished(&job, &font);
    assert_eq!(&bytes[..4], b"wOFF");

    // And it round trips back to a usable font.
    let reopened = loaded(bytes);
    assert_eq!(reopened.glyph_count(), font.glyph_count());
}

/// The variable font with its width pinned at the default and its weight cut at 650.
fn restricted_font() -> Vec<u8> {
    let tables = read_tables(&variable_font()).unwrap();
    let points = read_restriction_glyphs(&tables).unwrap();
    let shapes = build_shapes(&points);
    let metrics = metrics_of(&points, &shapes);
    let range = AxisLimit::Range { min: at(400.0), max: at(650.0) };
    let s = space(range, pin(100.0), (400 << 16, 400 << 16, 650 << 16));
    let tuples = vec![vec![], vec![], vec![], vec![]];
    instantiate_partial(&tables, &segment_maps(&tables), &s, &shapes, &metrics, &tuples).unwrap()
}

#[test]
fn the_output_of_a_job_has_the_axes_that_are_left() {
    let font = loaded(variable_font());
    let cut = restricted_font();
    let shown = vec![
        ("400".to_string(), "650".to_string()),
        ("100".to_string(), "100".to_string()),
    ];
    for format in [OutputFormat::Sfnt, OutputFormat::Woff, OutputFormat::Woff2] {
        let mut job = SliceJob::new(&font).unwrap();
        job.limits = vec![AxisLimit::Range { min: at(400.0), max: at(650.0) }, pin(100.0)];
        job.names.set(1, "Sliced Family");
        job.format = format;
        let mut run = started(&job, &font);
        assert_eq!(run.instancing, Instancing::Partial);
        run.instanced(cut.clone(), &shown);
        run.resolved(cut.clone());
        let output = match run.finish(&job, None, None, None) {
            Ok(output) => output.bytes,
            Err(e) => panic!("{e:?}"),
        };
        let result = loaded(output);
        let axes = result.axes().unwrap();
        assert_eq!(axes.len(), 1);
        assert_eq!(axes[0].tag, "wght");
        assert_eq!(
            (value(axes[0].min), value(axes[0].default), value(axes[0].max)),
            (400.0, 400.0, 650.0)
        );
        assert_eq!(result.glyph_count(), font.glyph_count());
        assert_eq!(result.name_edits().get(1), Some("Sliced Family"));
    }
    // With every axis pinned there is none left.
    assert!(!loaded(finished(&pin_all(&font), &font)).is_variable());
}

#[test]
fn plans_pair_axes_with_limits() {
    let all = plans(pin(700.0), AxisLimit::Full);
    assert!(all[0].is_pinned());
    assert!(all[1].is_untouched());
    let (min, default, max) = all[1].output_extent();
    assert_eq!((value(min), value(default), value(max)), (75.0, 100.0, 100.0));
    let spec: &AxisSpec = &all[0].spec;
    assert_eq!(spec.tag, "wght");
}

// ------------------------------------------------------------------------- whole drawings

/// What a glyph is drawn as, so that two drawings can be compared.
#[derive(Debug, Default, PartialEq)]
struct Recorder {
    strokes: Vec<(char, Vec<f32>)>,
}

impl OutlinePen for Recorder {
    fn move_to(&mut self, x: f32, y: f32) {
        self.strokes.push(('m', vec![x, y]));
    }
    fn line_to(&mut self, x: f32, y: f32) {
        self.strokes.push(('l', vec![x, y]));
    }
    fn quad_to(&mut self, cx: f32, cy: f32, x: f32, y: f32) {
        self.strokes.push(('q', vec![cx, cy, x, y]));
    }
    fn curve_to(&mut self, ax: f32, ay: f32, bx: f32, by: f32, x: f32, y: f32) {
        self.strokes.push(('c', vec![ax, ay, bx, by, x, y]));
    }
    fn close(&mut self) {
        self.strokes.push(('z', vec![]));
    }
}

impl Recorder {
    /// The drawing as a path that can be asked what it fills.
    fn path(&self) -> BezPath {
        let mut path = BezPath::new();
        for (kind, v) in &self.strokes {
            let p = |i: usize| Point2::new(f64::from(v[i]), f64::from(v[i + 1]));
            match kind {
                'm' => path.move_to(p(0)),
                'l' => path.line_to(p(0)),
                'q' => path.quad_to(p(0), p(2)),
                'c' => path.curve_to(p(0), p(2), p(4)),
                _ => path.close_path(),
            }
        }
        path
    }
}

/// Every glyph of a font, drawn at the default location.
fn drawings(bytes: &[u8]) -> Vec<Recorder> {
    let font = FontRef::new(bytes).unwrap();
    let count = font.maxp().unwrap().num_glyphs();
    let glyphs = font.outline_glyphs();
    (0..count)
        .map(|gid| {
            let mut pen = Recorder::default();
            if let Some(glyph) = glyphs.get(GlyphId::new(gid as u32)) {
                let settings = DrawSettings::unhinted(Size::unscaled(), LocationRef::default());
                glyph.draw(settings, &mut pen).expect("glyph should draw");
            }
            pen
        })
        .collect()
}

#[test]
fn reads_the_axis_editor_rows_in_fvar_order() {
    let mut builder = FontBuilder::new();
    common_tables(&mut builder);
    let fvar = Fvar::new(AxisInstanceArrays::new(
        vec![
            axis_record(b"MONO", 0.0, 0.0, 1.0, 256),
            axis_record(b"CASL", 0.0, 0.0, 1.0, 257),
            axis_record(b"wght", 300.0, 300.0, 1000.0, 258),
            axis_record(b"slnt", -15.0, 0.0, 0.0, 259),
            axis_record(b"CRSV", 0.0, 0.5, 1.0, 260),
        ],
        vec![],
    ));
    builder.add_table(&fvar).unwrap();
    let axes = loaded(builder.build()).axes().unwrap();
    let tags: Vec<_> = axes.iter().map(|a| a.tag.as_str()).collect();
    assert_eq!(tags, ["MONO", "CASL", "wght", "slnt", "CRSV"]);

    let wght = &axes[2];
    assert_eq!(value(wght.min), 300.0);
    assert_eq!(value(wght.default), 300.0);
    assert_eq!(value(wght.max), 1000.0);
    let show = |c: Coord| fmt_coord(&format!("{:.4}", value(c)));
    assert_eq!(
        AxisSpec::range_label(&show(wght.min), &show(wght.max), &show(wght.default)),
        "300.0 : 1000.0 [300.0]"
    );

    let crsv = &axes[4];
    assert_eq!((value(crsv.min), value(crsv.default), value(crsv.max)), (0.0, 0.5, 1.0));

    let slnt = &axes[3];
    assert_eq!((value(slnt.min), value(slnt.default), value(slnt.max)), (-15.0, 0.0, 0.0));
}

#[test]
fn recognises_a_variable_truetype_font() {
    let f = loaded(variable_font());
    assert!(f.is_variable());
    assert!(f.is_truetype());
}

#[test]
fn decoded_woff_has_the_same_tables_as_the_ttf() {
    let ttf = variable_font();
    let from_woff = decode_woff(&encode_woff(&ttf).unwrap()).unwrap();
    assert_eq!(tables(&from_woff), tables(&ttf));
}

#[test]
fn decoded_woff2_has_the_same_tables_as_the_ttf() {
    let ttf = variable_font();
    let from_woff2 = decode_woff2(&encode_woff2(&ttf).unwrap()).unwrap();
    let a = tables(&from_woff2);
    let b = tables(&ttf);
    let a_tags: Vec<_> = a.iter().map(|(t, _)| t.clone()).collect();
    let b_tags: Vec<_> = b.iter().map(|(t, _)| t.clone()).collect();
    assert_eq!(a_tags, b_tags);
    for ((tag, ab), (_, bb)) in a.iter().zip(b.iter()) {
        if tag == "head" {
            assert_eq!(ab.len(), bb.len(), "head length differs");
            assert_eq!(ab[..8], bb[..8]);
            assert_eq!(ab[12..16], bb[12..16]);
            assert_eq!(ab[18..], bb[18..]);
        } else {
            assert_eq!(ab, bb, "table {tag} differs");
        }
    }
}

#[test]
fn decoded_woff2_draws_the_same_outlines_as_the_ttf() {
    let ttf = variable_font();
    let from_woff2 = decode_woff2(&encode_woff2(&ttf).unwrap()).unwrap();
    let a = drawings(&from_woff2);
    let b = drawings(&ttf);
    assert!(!a.is_empty());
    assert_eq!(a.len(), b.len(), "glyph counts differ");
    for (gid, (a, b)) in a.iter().zip(b.iter()).enumerate() {
        assert_eq!(a, b, "glyph {gid} differs");
    }
}

#[test]
fn instancing_at_the_default_preserves_the_outlines_exactly() {
    let reference = drawings(&variable_font());
    let actual = drawings(&static_font());
    assert!(reference.iter().any(|d| !d.strokes.is_empty()));
    assert_eq!(reference, actual, "an outline changed when instanced at the default location");
}

#[test]
fn the_instance_is_smaller_than_the_variable_font() {
    let (instanced, variable) = (static_font().len(), variable_font().len());
    assert!(
        instanced < variable,
        "instance is {instanced} bytes, variable font is {variable} bytes"
    );
}
