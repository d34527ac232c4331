use stroke_preview::data::{
    line_number_of, load_cfg_data, parse_stroke, ManifestFormatError, FIRST_RECORD, HEADER_LEN,
};
use stroke_preview::manifest::{DOMAIN_MAX, DOMAIN_MIN};
use stroke_preview::strokes::StrokeError;

fn lines(text: &[&str]) -> Vec<String> {
    text.iter().map(|s| s.to_string()).collect()
}

/// The raw offset that lands on blob position `p`.
fn raw(p: i64) -> i64 {
    p + FIRST_RECORD - HEADER_LEN
}

#[test]
fn out_of_domain_entries_are_excluded() {
    let below = DOMAIN_MIN - 1;
    let above = DOMAIN_MAX + 1;
    let d = load_cfg_data(
        &lines(&[
            &format!("low,{}", below),
            &format!("high,{}", above),
            &format!("first,{}", DOMAIN_MIN),
            &format!("last,{}", DOMAIN_MAX),
            "negative,-5",
        ]),
        vec![],
    )
    .unwrap();
    assert_eq!(
        d.cfg_items,
        vec![("first".to_string(), DOMAIN_MIN), ("last".to_string(), DOMAIN_MAX)]
    );
}

#[test]
fn entries_are_sorted_by_offset_keeping_manifest_order_on_ties() {
    let d = load_cfg_data(
        &lines(&[
            "c,558900000",
            "// a comment,1",
            "a,558891010",
            "b,558900000",
            "d,558891009",
            "e,558900000",
        ]),
        vec![1, 2, 3],
    )
    .unwrap();
    let names: Vec<&str> = d.cfg_items.iter().map(|(n, _)| n.as_str()).collect();
    assert_eq!(names, vec!["d", "a", "c", "b", "e"]);
    assert!(d.cfg_items.windows(2).all(|w| w[0].1 <= w[1].1));
    assert_eq!(d.cfg_contents, vec![1, 2, 3]);
}

#[test]
fn empty_manifest_loads_empty() {
    let d = load_cfg_data(&vec![], vec![7]).unwrap();
    assert!(d.cfg_items.is_empty());
}

#[test]
fn extra_fields_and_signs_are_accepted() {
    let d = load_cfg_data(&lines(&["x,+558891010,ignored,more", ",558891011", "ü,558891012"]), vec![]).unwrap();
    assert_eq!(
        d.cfg_items,
        vec![
            ("x".to_string(), 558891010),
            ("".to_string(), 558891011),
            ("ü".to_string(), 558891012)
        ]
    );
}

#[test]
fn line_without_comma_fails_the_load() {
    let r = load_cfg_data(&lines(&["a,558891010", "// fine", "no comma here"]), vec![]);
    assert_eq!(r.err(), Some(ManifestFormatError { line: 2 }));
}

#[test]
fn offset_that_is_not_an_integer_fails_the_load() {
    for bad in ["a, 558891010", "a,", "a,-", "a,12x", "a,9223372036854775808", "a,5.0"] {
        let r = load_cfg_data(&lines(&["ok,1", bad, "also bad"]), vec![]);
        assert_eq!(r.err(), Some(ManifestFormatError { line: 1 }), "{}", bad);
    }
    let d = load_cfg_data(&lines(&["a,-9223372036854775808", "b,9223372036854775807"]), vec![]).unwrap();
    assert!(d.cfg_items.is_empty());
}

#[test]
fn line_numbers_count_newlines_before_the_entry() {
    let mut blob = vec![b'x'; HEADER_LEN as usize];
    blob[3] = b'\n';
    blob.extend_from_slice(b"ab\ncd\nef");
    let start = raw(HEADER_LEN);
    assert_eq!(line_number_of(&blob, start), Some(2));
    assert_eq!(line_number_of(&blob, start + 4), Some(3));
    assert_eq!(line_number_of(&blob, raw(0)), Some(1));
    assert_eq!(line_number_of(&blob, raw(blob.len() as i64)), Some(4));
    assert_eq!(line_number_of(&blob, raw(blob.len() as i64 + 1)), None);
    assert_eq!(line_number_of(&blob, raw(-1)), None);
    assert_eq!(line_number_of(&blob, i64::MIN), None);
}

const RECORD: &str = "StrokeAttributes
Type Defensive
EdgeModifier 10
Difficulty 0 Reward 0
Difficulty6 0 Reward6 0
EdgeProb 0 EdgeProb6 0
BowlerTypes 15
BallStumps 3
BallBatsman 3
BallLength 2
";

fn keyframes() -> String {
    let mut s = String::new();
    for (mode, base) in [("Normal", 0u64), ("6Hit", 100)] {
        for k in 0..5u64 {
            s += &format!(
                "Mode {} KeyFrame {}\nFrame 1\nVertical {}\nDirection 2 DirectionArea 3\nPower 4 PowerArea 5\n",
                mode,
                k,
                base + k
            );
        }
    }
    s
}

#[test]
fn entries_read_their_own_byte_range() {
    let mut blob = vec![0u8; HEADER_LEN as usize];
    let first = blob.len() as i64;
    blob.extend_from_slice(RECORD.as_bytes());
    blob.extend_from_slice(keyframes().as_bytes());
    let second = blob.len() as i64;
    blob.extend_from_slice(b"; not a stroke\n");
    let stroke = parse_stroke(&blob, raw(first), Some(raw(second))).unwrap().unwrap();
    assert_eq!(stroke.timings_normal[3].vertical, 3);
    assert_eq!(stroke.timings_hit6[4].vertical, 104);
    assert_eq!(parse_stroke(&blob, raw(second), None), Ok(None));
    // A range cut before the record's end is malformed.
    let cut = parse_stroke(&blob, raw(first), Some(raw(first + 40)));
    assert!(matches!(cut, Err(StrokeError::Malformed { .. })));
}

#[test]
fn ranges_outside_the_blob_are_out_of_range() {
    let blob = vec![0u8; 100];
    assert_eq!(parse_stroke(&blob, raw(-1), None), Err(StrokeError::OutOfRange));
    assert_eq!(parse_stroke(&blob, raw(10), Some(raw(101))), Err(StrokeError::OutOfRange));
    assert_eq!(parse_stroke(&blob, raw(20), Some(raw(10))), Err(StrokeError::OutOfRange));
    assert_eq!(parse_stroke(&blob, raw(101), None), Err(StrokeError::OutOfRange));
    assert_eq!(parse_stroke(&blob, raw(100), None), Ok(None));
    assert_eq!(parse_stroke(&blob, raw(10), Some(raw(10))), Ok(None));
}
