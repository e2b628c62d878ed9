use fpvflow_core::color::lut::parser::{parse_cube, parse_cube_str, LutParseError};
use fpvflow_core::color::lut::{Lut, LutData};
use fpvflow_core::ieee::single::Single;

fn s(v: f32) -> Single {
    Single { bits: v.to_bits() }
}

const CURVE: &str = "LUT_1D_SIZE 2\n0 0 0\n1 1 1\n";

fn curve(extra: &str) -> Result<Lut, LutParseError> {
    parse_cube_str(&format!("{extra}{CURVE}"))
}

#[test]
fn sizes_out_of_range_are_refused() {
    let size = |t: &str| match parse_cube_str(&format!("LUT_3D_SIZE{t}\n")) {
        Err(LutParseError::InvalidSize { found }) => found,
        other => panic!("{other:?}"),
    };
    assert_eq!(size(" 1"), "1");
    assert_eq!(size(" 0"), "0");
    assert_eq!(size(" 257"), "257");
    assert_eq!(size(" +0300"), "300");
    assert_eq!(size(" two"), "two");
    assert_eq!(size(" -2"), "-2");
    assert_eq!(size(" +"), "+");
    assert_eq!(size(""), "");
    assert_eq!(size(" 99999999999999999999999999"), "99999999999999999999999999");
    assert_eq!(size(" 18446744073709551615"), "18446744073709551615");
    assert_eq!(size(" 2.0"), "2.0");
}

#[test]
fn both_sizes_conflict() {
    let text = "LUT_1D_SIZE 2\nLUT_3D_SIZE 2\n0 0 0\n";
    assert_eq!(parse_cube_str(text), Err(LutParseError::ConflictingSize));
}

#[test]
fn a_bad_domain_is_pointed_at() {
    let at = |t: &str| match curve(t) {
        Err(LutParseError::InvalidDomain { line }) => line,
        other => panic!("{other:?}"),
    };
    assert_eq!(at("DOMAIN_MIN 0 0\n"), 1);
    assert_eq!(at("# first\n\nDOMAIN_MAX 1 1 1 1\n"), 3);
    assert_eq!(at("DOMAIN_MAX one two three\n"), 1);
}

#[test]
fn a_bad_row_is_quoted() {
    let text = "LUT_1D_SIZE 2\r\n  0.5 0.5  \r\n";
    assert_eq!(
        parse_cube_str(text),
        Err(LutParseError::InvalidData { line: 2, text: "0.5 0.5".to_string() })
    );
}

#[test]
fn the_first_bad_line_counts() {
    let text = "LUT_1D_SIZE 2\n1 2\nDOMAIN_MIN 0\nLUT_1D_SIZE 1\n";
    assert_eq!(parse_cube_str(text), Err(LutParseError::InvalidData { line: 2, text: "1 2".to_string() }));
}

#[test]
fn words_that_are_no_numbers_are_passed_over() {
    let lut = curve("DOMAIN_MIN a 0.25 b 0.5 c 0.75\n").unwrap();
    assert_eq!(lut.domain_min, [s(0.25), s(0.5), s(0.75)]);
    let lut = parse_cube_str("LUT_1D_SIZE 2\n0 x 0 y 0\n1 1 1 z\n").unwrap();
    assert_eq!(lut.size(), 2);
}

#[test]
fn keywords_not_used_are_passed_over() {
    let lut = curve("LUT_3D_INPUT_RANGE 0.0 1.0\ntitle \"no\"\nÜbung 1 2 3\n").unwrap();
    assert_eq!(lut.title, None);
    assert_eq!(lut.size(), 2);
}

#[test]
fn titles_lose_their_quotes() {
    let title = |t: &str| curve(t).unwrap().title;
    assert_eq!(title("TITLE \"Some name\"\n").as_deref(), Some("Some name"));
    assert_eq!(title("TITLE plain words\n").as_deref(), Some("plain words"));
    assert_eq!(title("TITLE\n").as_deref(), Some(""));
    assert_eq!(title("TITLE \"\"a\" b\"\"\n").as_deref(), Some("a\" b"));
    assert_eq!(title("TITLE \"one\"\nTITLE \"two\"\n").as_deref(), Some("two"));
    assert_eq!(title("TITLE \" spaced \"\n").as_deref(), Some(" spaced "));
}

#[test]
fn byte_order_marks_and_unicode_spaces_are_trimmed() {
    let lut = parse_cube_str("\u{feff}\u{feff}\u{3000}LUT_1D_SIZE\u{a0}2\u{2003}\n0\u{2009}0\t0\n1 1 1\n").unwrap();
    assert_eq!(lut.size(), 2);
    assert_eq!(lut.domain_max, [s(1.0), s(1.0), s(1.0)]);
}

#[test]
fn the_last_size_counts() {
    let lut = parse_cube_str("LUT_1D_SIZE 7\nLUT_1D_SIZE 2\n0 0 0\n1 1 1").unwrap();
    assert_eq!(lut.size(), 2);
}

#[test]
fn silent_lines_do_not_count() {
    let plain = curve("").unwrap();
    let noisy = parse_cube_str("\n# a\nLUT_1D_SIZE 2\n\n0 0 0\n#b\nUNUSED 1\n1 1 1\n\n").unwrap();
    assert_eq!(plain, noisy);
}

#[test]
fn a_file_keeps_its_place() {
    let lut = parse_cube("file:///a.cube", Ok(CURVE.to_string())).unwrap();
    assert_eq!(lut.path, "file:///a.cube");
    assert!(matches!(lut.data, LutData::Lut1D { size: 2, .. }));
    assert_eq!(
        parse_cube("file:///a.cube", Err("gone".to_string())),
        Err(LutParseError::Io("gone".to_string()))
    );
    assert_eq!(parse_cube("x", Ok(String::new())), Err(LutParseError::MissingSize));
}

#[test]
fn faults_have_their_texts() {
    let text = |e: LutParseError| e.message();
    assert_eq!(text(LutParseError::Io("gone".to_string())), "Could not read the file: gone");
    assert_eq!(text(LutParseError::InvalidSize { found: "1".to_string() }), "Invalid LUT size: 1");
    assert_eq!(text(LutParseError::MissingSize), "No LUT_1D_SIZE or LUT_3D_SIZE in the file");
    assert_eq!(text(LutParseError::ConflictingSize), "The file declares both LUT_1D_SIZE and LUT_3D_SIZE");
    assert_eq!(
        text(LutParseError::InvalidData { line: 12, text: "1 oops".to_string() }),
        "Line 12 is not three numbers: 1 oops"
    );
    assert_eq!(
        text(LutParseError::SizeMismatch { expected: 35937, found: 0 }),
        "Expected 35937 entries, found 0 - the file looks truncated"
    );
    assert_eq!(text(LutParseError::InvalidDomain { line: 4 }), "Malformed DOMAIN on line 4");
}

#[test]
fn colors_outside_the_domain_are_held_at_its_ends() {
    let lut = curve("DOMAIN_MIN -1 -1 -1\nDOMAIN_MAX 3 3 3\n").unwrap();
    assert_eq!(lut.sample([s(9.0), s(3.0), s(1e30)]), [s(1.0), s(1.0), s(1.0)]);
    assert_eq!(lut.sample([s(-9.0), s(-1.0), s(-1e30)]), [s(0.0), s(0.0), s(0.0)]);
    assert_eq!(lut.normalize([s(1.0), s(0.0), s(2.0)]), [s(0.5), s(0.25), s(0.75)]);
}

#[test]
fn an_empty_domain_gives_the_first_entry() {
    let lut = curve("DOMAIN_MIN 0.5 0.5 0.5\nDOMAIN_MAX 0.5 0.5 0.5\n").unwrap();
    assert_eq!(lut.normalize([s(0.9), s(0.1), s(0.5)]), [s(0.0), s(0.0), s(0.0)]);
}

#[test]
fn what_is_no_number_comes_out_as_none() {
    let out = curve("").unwrap().sample([s(f32::NAN), s(0.5), s(0.25)]);
    assert!(out[0].is_nan());
    assert_eq!(out[1], s(0.5));
}
