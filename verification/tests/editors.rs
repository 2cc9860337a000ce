//! The editors: axes, names, bit flags, and the settings that carry them in a URL.
use slice_core::axes::{
    fmt_coord, parse_axis_limit, range_limit, well_known_axis_name, AxisEntry, AxisLimit, AxisSpec,
};
use slice_core::bits::{describe_bits, head_mac_style, on_off, os2_fs_selection, BitFlags};
use slice_core::command::{
    describe_limit, parse_axis_arg, parse_bit_arg, parse_name_arg, set_flags, set_names,
};
use slice_core::coord::Coord;
use slice_core::editors::{load_font, read_cells, suggested_output_name, trim_number};
use slice_core::error::SliceError;
use slice_core::job::OutputFormat;
use slice_core::names::{row_hint, row_label, NameEdits, MANDATORY_IDS};
use slice_core::recent::{identity, RecentFont};
use slice_core::settings::{decode, encode_keeping, Settings};

fn at(v: f64) -> Coord {
    Coord { bits: v.to_bits() }
}

fn value(c: Coord) -> f64 {
    f64::from_bits(c.bits)
}

/// The limit that a cell asks for, with its numbers read.
fn limit(input: &str, tag: &str) -> Result<AxisLimit, SliceError> {
    let number = |text: String| at(text.parse::<f64>().unwrap());
    Ok(match parse_axis_limit(input, tag)? {
        AxisEntry::Full => AxisLimit::Full,
        AxisEntry::Pin(v) => AxisLimit::Pin(number(v)),
        AxisEntry::Range { start, end } => range_limit(number(start), number(end)),
    })
}

fn range(min: f64, max: f64) -> AxisLimit {
    AxisLimit::Range { min: at(min), max: at(max) }
}

/// Recursive's wght axis.
fn axis() -> AxisSpec {
    AxisSpec {
        tag: "wght".into(),
        min: at(300.0),
        default: at(300.0),
        max: at(1000.0),
        name: Some("Weight".into()),
        hidden: false,
    }
}

// --------------------------------------------------------------------------------- axes

#[test]
fn blank_entry_keeps_the_full_axis() {
    assert_eq!(limit("", "wght").unwrap(), AxisLimit::Full);
    assert_eq!(limit("   ", "wght").unwrap(), AxisLimit::Full);
}

#[test]
fn bare_number_pins_the_axis() {
    assert_eq!(limit("400", "wght").unwrap(), AxisLimit::Pin(at(400.0)));
    assert_eq!(limit("400.5", "wght").unwrap(), AxisLimit::Pin(at(400.5)));
    assert_eq!(limit("-15", "slnt").unwrap(), AxisLimit::Pin(at(-15.0)));
}

#[test]
fn colon_pair_restricts_the_axis() {
    assert_eq!(limit("200:700", "wght").unwrap(), range(200.0, 700.0));
    assert_eq!(limit(" 200 : 700 ", "wght").unwrap(), range(200.0, 700.0));
}

#[test]
fn reversed_range_is_sorted_like_the_original() {
    assert_eq!(limit("800:400", "wght").unwrap(), range(400.0, 800.0));
}

#[test]
fn non_numeric_entry_is_rejected() {
    for bad in ["abc", "40o", "1e3", "NaN", "inf", "4..0", "."] {
        assert!(parse_axis_limit(bad, "wght").is_err(), "{bad:?} should not parse");
    }
}

#[test]
fn explicit_default_is_rejected_rather_than_silently_dropped() {
    let err = parse_axis_limit("200:700[400]", "wght").unwrap_err();
    assert!(matches!(err, SliceError::DefaultMoveUnsupported { .. }), "got {err:?}");
}

#[test]
fn restricted_range_must_contain_the_default() {
    let a = axis();
    // wght default is 300, so a 400:700 range cannot be compiled.
    let err = a.validate(range(400.0, 700.0)).unwrap_err();
    assert!(matches!(err, SliceError::DefaultOutsideRange { .. }), "got {err:?}");

    // A range that does contain it is fine.
    assert!(a.validate(range(300.0, 700.0)).is_ok());
}

#[test]
fn limits_must_stay_inside_the_original_extent() {
    let a = axis();
    assert!(a.validate(AxisLimit::Pin(at(1200.0))).is_err());
    assert!(a.validate(AxisLimit::Pin(at(100.0))).is_err());
    assert!(a.validate(range(100.0, 700.0)).is_err());
    assert!(a.validate(AxisLimit::Pin(at(1000.0))).is_ok());
}

#[test]
fn range_label_matches_the_original_axis_editor_column() {
    let show = |c: Coord| fmt_coord(&format!("{:.4}", value(c)));
    let a = axis();
    assert_eq!(
        AxisSpec::range_label(&show(a.min), &show(a.max), &show(a.default)),
        "300.0 : 1000.0 [300.0]"
    );
}

#[test]
fn axis_names_prefer_the_registry_over_the_font() {
    let a = AxisSpec {
        tag: "MONO".into(),
        min: at(0.0),
        default: at(0.0),
        max: at(1.0),
        name: Some("Monospacyness".into()),
        hidden: false,
    };
    assert_eq!(a.display_name().as_deref(), Some("Monospace"));

    let b = AxisSpec { tag: "XYZW".into(), name: Some("Bespoke".into()), ..a.clone() };
    assert_eq!(b.display_name().as_deref(), Some("Bespoke"));
}

#[test]
fn an_unregistered_axis_has_no_registry_name() {
    assert_eq!(well_known_axis_name("wght"), Some("Weight"));
    assert_eq!(well_known_axis_name("XYZW"), None);
}

#[test]
fn coordinates_order_as_the_numbers_do() {
    let values = [-1000.5, -15.0, -0.0, 0.0, 0.25, 1.0, 400.0, 65535.0];
    for a in values {
        for b in values {
            assert_eq!(at(a).lt(at(b)), a < b, "{a} < {b}");
            assert_eq!(at(a).le(at(b)), a <= b, "{a} <= {b}");
            assert_eq!(at(a).same(at(b)), a == b, "{a} == {b}");
        }
    }
    for n in [0, 1, -1, 65536, -65536, 26214400, i32::MAX, i32::MIN] {
        assert_eq!(value(Coord::of_fixed(n)), f64::from(n) / 65536.0, "{n}");
    }
}

#[test]
fn coordinates_are_shown_with_the_digits_that_matter() {
    assert_eq!(fmt_coord("300.0000"), "300.0");
    assert_eq!(fmt_coord("0.2500"), "0.25");
    assert_eq!(fmt_coord("-15.1234"), "-15.1234");
}

#[test]
fn each_axis_problem_has_its_own_message() {
    let shown = |e: &SliceError| {
        let texts: Vec<String> =
            e.coordinates().iter().map(|b| format!("{}", f64::from_bits(*b))).collect();
        e.message(&texts)
    };
    let a = axis();
    let e = a.validate(AxisLimit::Pin(at(5000.0))).unwrap_err();
    assert_eq!(
        shown(&e),
        "The wght value 5000 is outside the axis range 300 to 1000 supported by this font."
    );
    let e = a.validate(range(100.0, 700.0)).unwrap_err();
    assert_eq!(
        shown(&e),
        "The wght range 100:700 is not contained in the axis range 300 to 1000 supported by this font."
    );
    let e = a.validate(range(400.0, 700.0)).unwrap_err();
    assert_eq!(
        shown(&e),
        "The wght range 400:700 does not include the default axis value (300).  This is currently a requirement."
    );
    let e = parse_axis_limit("abc", "wght").unwrap_err();
    assert_eq!(
        shown(&e),
        "'abc' is not a valid wght axis value. Please enter a single numeric value and try again."
    );
    let e = parse_axis_limit("200:700[400", "wght").unwrap_err();
    assert_eq!(shown(&e), "200:700[400 is not a valid axis range definition for wght.");
    assert_eq!(
        shown(&SliceError::UnknownAxis { axis: "opsz".into() }),
        "the font has no axis named opsz"
    );
}

// --------------------------------------------------------------------------------- bits

#[test]
fn setting_and_clearing_leaves_other_bits_alone() {
    let mut f = BitFlags { fs_selection: 0b0000_0001_1010_0010, mac_style: 0 };
    let before = f.fs_selection;
    f.set_fs_selection_bit(6, true);
    assert_eq!(f.fs_selection, before | (1 << 6));
    f.set_fs_selection_bit(6, false);
    assert_eq!(f.fs_selection, before, "unexposed bits must survive");
}

#[test]
fn binary_rendering_matches_the_originals_debug_output() {
    assert_eq!(BitFlags::binary(0), "0000000000000000");
    assert_eq!(BitFlags::binary(1 << 6), "0000000001000000");
    assert_eq!(BitFlags::binary(0xFFFF), "1111111111111111");
}

#[test]
fn contradictory_bits_are_reported() {
    let f = BitFlags {
        fs_selection: (1 << 5) | (1 << 6), // BOLD and REGULAR together
        mac_style: 1 << 0,
    };
    let w = f.warnings();
    assert!(w.iter().any(|m| m.contains("REGULAR")), "{w:?}");

    // Bold set in OS/2 but not in head.
    let f = BitFlags { fs_selection: 1 << 5, mac_style: 0 };
    assert!(f.warnings().iter().any(|m| m.contains("BOLD")));
}

#[test]
fn a_consistent_regular_font_produces_no_warnings() {
    let f = BitFlags { fs_selection: 1 << 6, mac_style: 0 };
    assert!(f.warnings().is_empty(), "{:?}", f.warnings());
}

#[test]
fn set_bits_are_described_by_their_labels() {
    assert_eq!(
        os2_fs_selection()[3].hint,
        "Family name differs from other family members only in weight/width/slope."
    );
    assert_eq!(head_mac_style()[0].hint, "Bold. Should agree with OS/2.fsSelection bit 5.");
    assert_eq!(describe_bits(0, &os2_fs_selection()), "none of the editable bits set");
    assert_eq!(
        describe_bits(0b10_0001, &os2_fs_selection()),
        "bit 0 (ITALIC), bit 5 (BOLD)"
    );
    assert_eq!(describe_bits(2, &head_mac_style()), "bit 1 (ITALIC)");
    assert_eq!((on_off(true), on_off(false)), ("set", "clear"));
}

#[test]
fn mac_style_bits_are_set_and_read() {
    let mut f = BitFlags { fs_selection: 0, mac_style: 0 };
    f.set_mac_style_bit(1, true);
    assert!(f.mac_style_bit(1));
    assert!(!f.mac_style_bit(0));
    assert_eq!(f.mac_style, 2);
    assert!(!f.fs_selection_bit(1));
}

// -------------------------------------------------------------------------------- names

#[test]
fn rows_are_in_editor_order() {
    let edits = NameEdits::new();
    let ids: Vec<_> = edits.rows().into_iter().map(|(id, _)| id).collect();
    assert_eq!(ids, vec![1, 2, 3, 4, 6, 16, 17, 21, 22]);
}

#[test]
fn blank_optional_rows_become_deletions() {
    let mut edits = NameEdits::new();
    edits.set(1, "Test Family").set(16, "Typo Family");
    let (writes, deletes) = edits.plan();

    // Every mandatory ID is written, even the ones left blank.
    for id in MANDATORY_IDS {
        assert!(writes.iter().any(|(w, _)| *w == id), "missing write for {id}");
    }
    assert!(writes.contains(&(16, "Typo Family".to_string())));
    // 17, 21 and 22 were never filled in, so they come out.
    assert_eq!(deletes, vec![17, 21, 22]);
}

#[test]
fn whitespace_only_is_still_text() {
    // Only the empty string means "delete this record", so a space is a real (if odd)
    // value.
    let mut edits = NameEdits::new();
    edits.set(16, " ");
    let (writes, deletes) = edits.plan();
    assert!(writes.contains(&(16, " ".to_string())));
    assert!(!deletes.contains(&16));
}

#[test]
fn rows_have_labels_and_hints() {
    assert_eq!(row_label(6), "06 Postscript");
    assert_eq!(row_label(5), "");
    assert!(!row_hint(1).is_empty());
    let mut edits = NameEdits::new();
    assert!(edits.is_empty());
    edits.set(22, "Bold");
    assert!(!edits.is_empty());
    assert_eq!(edits.get(22), Some("Bold"));
    assert_eq!(edits.get_or_empty(21), "");
}

// ----------------------------------------------------------------------------- settings

fn sample() -> Settings {
    let mut names = NameEdits::new();
    names.set(1, "Recursive Sans");
    names.set(2, "Bold");
    Settings {
        axes: vec![("wght".into(), "700".into()), ("CASL".into(), "0:1".into())],
        names,
        bits: BitFlags { fs_selection: 32, mac_style: 1 },
        remove_overlaps: true,
        format: OutputFormat::Woff2,
    }
}

#[test]
fn a_settings_round_trip_is_lossless() {
    let original = sample();
    let parsed = Settings::from_query(&original.to_query());
    assert_eq!(parsed, original);
}

#[test]
fn the_axis_list_stays_readable_in_the_url() {
    // The whole reason for hand-rolling the encoder: a bookmark someone can read.
    let query = sample().to_query();
    assert!(query.contains("axes=wght=700,CASL=0:1"), "{query}");
}

#[test]
fn a_space_in_a_name_survives() {
    let parsed = Settings::from_query(&sample().to_query());
    assert_eq!(parsed.names.get(1), Some("Recursive Sans"));
}

#[test]
fn awkward_characters_in_a_name_survive() {
    let mut names = NameEdits::new();
    // Ampersand and equals would end the field; the em dash is multi-byte.
    names.set(4, "A & B = C — ü");
    let settings = Settings { names, ..Settings::default() };
    let parsed = Settings::from_query(&settings.to_query());
    assert_eq!(parsed.names.get(4), Some("A & B = C — ü"));
}

#[test]
fn an_empty_settings_makes_an_empty_query() {
    assert_eq!(Settings::default().to_query(), "");
    assert!(Settings::default().is_empty());
}

#[test]
fn nonsense_is_ignored_rather_than_refused() {
    // A URL gets truncated and hand-edited; restoring what parses beats refusing.
    let parsed = Settings::from_query("?axes=wght=400&nonsense&n99=x&fs=notanumber&n1=Keep");
    assert_eq!(parsed.axes, vec![("wght".to_string(), "400".to_string())]);
    assert_eq!(parsed.names.get(1), Some("Keep"));
    assert_eq!(parsed.bits.fs_selection, 0);
}

#[test]
fn a_name_id_the_editor_does_not_show_is_dropped() {
    // n99 is not an editable row; accepting it would write a record the interface cannot
    // display and the user cannot undo.
    let parsed = Settings::from_query("n99=ghost&n1=real");
    assert_eq!(parsed.names.get(1), Some("real"));
    assert_eq!(parsed.names.get(99), None);
}

#[test]
fn unexposed_bits_survive_the_round_trip() {
    // fsSelection bit 7 is not one of those the editor shows. The URL carries the whole
    // field.
    let settings = Settings {
        bits: BitFlags { fs_selection: 1 << 7, mac_style: 0 },
        ..Settings::default()
    };
    assert_eq!(Settings::from_query(&settings.to_query()).bits.fs_selection, 1 << 7);
}

#[test]
fn percent_coding_gives_back_every_text() {
    for text in ["", "plain", "50% off & more", "ü—𝄞", "a+b c"] {
        let coded: String = encode_keeping(text, ",:=").into_iter().collect();
        assert!(coded.is_ascii(), "{coded}");
        assert_eq!(decode(&coded), text);
    }
    let kept: String = encode_keeping("a=b c", "=").into_iter().collect();
    assert_eq!(kept, "a=b%20c");
    assert_eq!(decode("a+b"), "a b");
    assert_eq!(decode("100%"), "100%");
}

// --------------------------------------------------------------------------- file names

#[test]
fn file_names_drop_trailing_zeros_and_keep_fractions_readable() {
    let show = |v: f64| {
        if v == v.trunc() {
            format!("{}", v as i64)
        } else {
            format!("{v}")
        }
    };
    assert_eq!(trim_number(&show(800.0)), "800");
    assert_eq!(trim_number(&show(-15.0)), "-15");
    assert_eq!(trim_number(&show(0.5)), "0_5");
}

#[test]
fn an_output_name_describes_the_instance() {
    let axes = vec![
        axis(),
        AxisSpec { tag: "CASL".into(), ..axis() },
        AxisSpec { tag: "slnt".into(), ..axis() },
    ];
    let pinned = |text: &str| AxisEntry::Pin(text.into());
    let name = |file: &str, entries: Vec<AxisEntry>, format| {
        suggested_output_name(file, &axes, &entries, format, true)
    };
    assert_eq!(
        name(
            "Recursive-VF.ttf",
            vec![pinned("800"), AxisEntry::Full, AxisEntry::Full],
            OutputFormat::Sfnt
        ),
        "Recursive-VF-wght800.ttf"
    );
    assert_eq!(
        name(
            "a.b.otf",
            vec![
                AxisEntry::Full,
                pinned("0.5"),
                AxisEntry::Range { start: "-15".into(), end: "0".into() }
            ],
            OutputFormat::Woff2
        ),
        "a.b-CASL0_5-slnt-15-0.woff2"
    );
    assert_eq!(
        name("", vec![AxisEntry::Full, AxisEntry::Full, AxisEntry::Full], OutputFormat::Woff),
        "sliced.woff"
    );
}

#[test]
fn the_output_extension_follows_the_format() {
    assert_eq!(OutputFormat::Sfnt.extension(true), "ttf");
    assert_eq!(OutputFormat::Sfnt.extension(false), "otf");
    assert_eq!(OutputFormat::Woff.extension(true), "woff");
    assert_eq!(OutputFormat::from_filename("Test.WOFF"), OutputFormat::Woff);
    assert_eq!(OutputFormat::from_filename("Test.ttf"), OutputFormat::Sfnt);
}

#[test]
fn a_woff2_name_asks_for_woff2() {
    assert_eq!(OutputFormat::from_filename("Test.woff2"), OutputFormat::Woff2);
    assert_eq!(OutputFormat::Woff2.extension(false), "woff2");
    assert_eq!(OutputFormat::Woff2.mime_type(), "font/woff2");
    assert_eq!(OutputFormat::Woff.mime_type(), "font/woff");
    assert_eq!(OutputFormat::Sfnt.mime_type(), "font/ttf");
}

// ------------------------------------------------------------------------- command line

#[test]
fn bit_arguments_are_read() {
    assert_eq!(parse_bit_arg("5=on", "--fs-selection"), Ok((5, true)));
    assert_eq!(parse_bit_arg(" 0 = NO ", "--mac-style"), Ok((0, false)));
    assert_eq!(
        parse_bit_arg("5", "--fs-selection"),
        Err("--fs-selection wants BIT=on|off, got \"5\"".to_string())
    );
    assert_eq!(
        parse_bit_arg("x\n=on", "--fs-selection"),
        Err("\"x\\n\" is not a bit number".to_string())
    );
    assert_eq!(
        parse_bit_arg("256=on", "--fs-selection"),
        Err("\"256\" is not a bit number".to_string())
    );
    assert_eq!(
        parse_bit_arg("5=Maybe", "--fs-selection"),
        Err("\"maybe\" is not on or off".to_string())
    );
}

#[test]
fn name_arguments_are_read() {
    assert_eq!(parse_name_arg("1=A=B"), Ok((1, "A=B".to_string())));
    assert_eq!(parse_name_arg("x=A"), Err("\"x\" is not a name ID".to_string()));
    assert_eq!(
        parse_name_arg("A"),
        Err("--name wants ID=TEXT, got \"A\"".to_string())
    );
}

#[test]
fn arguments_apply_in_order() {
    let mut edits = NameEdits::new();
    let args = |list: &[&str]| list.iter().map(|a| a.to_string()).collect::<Vec<String>>();
    assert!(set_names(&mut edits, &args(&["1=A", "2=B", "1=C"])).is_ok());
    assert_eq!((edits.get(1), edits.get(2)), (Some("C"), Some("B")));
    assert!(set_names(&mut edits, &args(&["1=A", "oops"])).is_err());
    assert_eq!(set_flags(0, &args(&["5=on", "6=on", "5=off"]), "--mac-style"), Ok(1 << 6));
    assert_eq!(
        set_flags(0, &args(&["16=on"]), "--mac-style"),
        Err("16 is not one of the sixteen bits".to_string())
    );
}

#[test]
fn cells_are_read_one_per_axis() {
    let axes = vec![axis(), AxisSpec { tag: "slnt".into(), ..axis() }];
    let cells = read_cells(&axes, &vec![" 400 ".to_string()]).unwrap();
    assert_eq!(cells, vec![AxisEntry::Pin("400".to_string()), AxisEntry::Full]);
    let err = read_cells(&axes, &vec![String::new(), "x".to_string()]).unwrap_err();
    assert!(matches!(err, SliceError::AxisValue { axis, .. } if axis == "slnt"));
}

#[test]
fn axis_arguments_are_read() {
    let axes = vec![axis(), AxisSpec { tag: "slnt".into(), ..axis() }];
    assert_eq!(
        parse_axis_arg("slnt=-15", &axes),
        Ok((1, AxisEntry::Pin("-15".to_string())))
    );
    assert_eq!(
        parse_axis_arg("opsz=12", &axes),
        Err("the font has no opsz axis".to_string())
    );
    assert_eq!(
        parse_axis_arg("wght", &axes),
        Err("--axis wants TAG=VALUE, got \"wght\"".to_string())
    );
    assert_eq!(
        parse_axis_arg("wght=abc", &axes),
        Err("'abc' is not a valid wght axis value. Please enter a single numeric value and try again.".to_string())
    );
    assert_eq!(
        describe_limit("wght", range(300.0, 700.0), "300.0", "700.0"),
        "  wght   restricted to 300.0:700.0"
    );
    assert_eq!(describe_limit("wght", AxisLimit::Full, "", ""), "  wght   whole original range");
}

// ------------------------------------------------------------------------------- recent

fn recent(added: u64, size: u64) -> RecentFont {
    RecentFont {
        id: "id".into(),
        name: "font.ttf".into(),
        family: "Recursive".into(),
        version: "Version 1.0".into(),
        settings: String::new(),
        added,
        size,
    }
}

#[test]
fn identities_tell_bytes_apart() {
    // The reference values of FNV-1a.
    assert_eq!(identity("n", "f", b""), "f\u{1}n\u{1}cbf29ce484222325");
    assert_eq!(identity("n", "f", b"a"), "f\u{1}n\u{1}af63dc4c8601ec8c");
    assert_eq!(identity("n", "f", b"foobar"), "f\u{1}n\u{1}85944171f73967e8");
}

#[test]
fn a_font_is_listed_by_its_family() {
    let mut font = recent(0, 0);
    assert_eq!(font.label(), "Recursive");
    font.family = String::new();
    assert_eq!(font.label(), "font.ttf");
}

#[test]
fn ages_are_shown_in_days_and_months() {
    const DAY: u64 = 86_400_000;
    let label = |age: u64| recent(1000, 0).age_label(1000 + age);
    assert_eq!(label(0), "today");
    assert_eq!(recent(1000, 0).age_label(500), "today");
    assert_eq!(label(DAY), "yesterday");
    assert_eq!(label(2 * DAY), "2 days ago");
    // Halves go to the even number.
    assert_eq!(label(2 * DAY + DAY / 2), "2 days ago");
    assert_eq!(label(3 * DAY + DAY / 2), "4 days ago");
    assert_eq!(label(60 * DAY), "2 months ago");
    assert!(!recent(0, 0).is_stale(14 * DAY - 1));
    assert!(recent(0, 0).is_stale(14 * DAY));
}

#[test]
fn sizes_are_shown_as_the_formatter_shows_them() {
    for size in [0u64, 511, 512, 513, 1536, 2560, 1_048_575, 1_048_576, 1_310_720, 1_835_008, 9_999_999] {
        let kb = size as f64 / 1024.0;
        let expected = if kb >= 1024.0 {
            format!("{:.1} MB", kb / 1024.0)
        } else {
            format!("{kb:.0} kB")
        };
        assert_eq!(recent(0, size).size_label(), expected, "{size}");
    }
}

// -------------------------------------------------------------------------- opening a font

#[test]
fn a_file_that_is_no_font_is_reported() {
    match load_font(b"this is not a font".to_vec()) {
        Err(problem) => {
            assert_eq!(
                problem.summary,
                "An error was encountered during the attempt to load your font. See details below."
            );
            assert!(matches!(problem.details, SliceError::Read(_)));
        },
        Ok(_) => panic!("should not load"),
    }
}
