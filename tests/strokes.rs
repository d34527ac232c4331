use stroke_preview::strokes::{parse_stroke, Stroke, StrokeError, StrokeTiming};

const BLOCK: &[u8] = b"\0\0SStrokeAttributes

Type Defensive
EdgeModifier 10
EdgeModifier6 10
Difficulty 0 Reward 0
Difficulty6 0 Reward6 0
EdgeProb 0 EdgeProb6 0
BowlerTypes 15
BallStumps 3
BallBatsman 3
BallLength 2

Mode Normal KeyFrame 0
Frame 10
Vertical 90596966
Direction 242980370 DirectionArea 24298037
Power 144631 PowerArea 361578

Mode Normal KeyFrame 1
Frame 14
Vertical 90596966
Direction 242980370 DirectionArea 24298037
Power 144631 PowerArea 361578

Mode Normal KeyFrame 2
Frame 18
Vertical 90596966
Direction 242980370 DirectionArea 24298037
Power 144631 PowerArea 361578

Mode Normal KeyFrame 3
Frame 21
Vertical 90596966
Direction 242980370 DirectionArea 24298037
Power 144631 PowerArea 361578

Mode Normal KeyFrame 4
Frame 24
Vertical 90596966
Direction 242980370 DirectionArea 24298037
Power 144631 PowerArea 361578

Mode 6Hit KeyFrame 0
Frame 10
Vertical 90596966
Direction 242980370 DirectionArea 24298037
Power 144631 PowerArea 361578

Mode 6Hit KeyFrame 1
Frame 14
Vertical 90596966
Direction 242980370 DirectionArea 24298037
Power 144631 PowerArea 361578

Mode 6Hit KeyFrame 2
Frame 18
Vertical 90596966
Direction 242980370 DirectionArea 24298037
Power 144631 PowerArea 361578

Mode 6Hit KeyFrame 3
Frame 21
Vertical 90596966
Direction 242980370 DirectionArea 24298037
Power 144631 PowerArea 361578

Mode 6Hit KeyFrame 4
Frame 24
Vertical 90596966
Direction 242980370 DirectionArea 24298037
Power 144631 PowerArea 361578
\0\0";

fn same_timing() -> StrokeTiming {
    StrokeTiming {
        vertical: 90596966,
        direction: 242980370,
        direction_area: 24298037,
        power: 144631,
        power_area: 361578,
    }
}

fn replace(text: &[u8], from: &str, to: &str) -> Vec<u8> {
    String::from_utf8(text.to_vec()).unwrap().replacen(from, to, 1).into_bytes()
}

#[test]
fn parses_stroke_successfully() {
    let expected = Stroke {
        timings_normal: [
            StrokeTiming {
                vertical: 90596966,
                direction: 242980370,
                direction_area: 24298037,
                power: 144631,
                power_area: 361578,
            },
            StrokeTiming {
                vertical: 90596966,
                direction: 242980370,
                direction_area: 24298037,
                power: 144631,
                power_area: 361578,
            },
            StrokeTiming {
                vertical: 90596966,
                direction: 242980370,
                direction_area: 24298037,
                power: 144631,
                power_area: 361578,
            },
            StrokeTiming {
                vertical: 90596966,
                direction: 242980370,
                direction_area: 24298037,
                power: 144631,
                power_area: 361578,
            },
            StrokeTiming {
                vertical: 90596966,
                direction: 242980370,
                direction_area: 24298037,
                power: 144631,
                power_area: 361578,
            },
        ],
        timings_hit6: [
            StrokeTiming {
                vertical: 90596966,
                direction: 242980370,
                direction_area: 24298037,
                power: 144631,
                power_area: 361578,
            },
            StrokeTiming {
                vertical: 90596966,
                direction: 242980370,
                direction_area: 24298037,
                power: 144631,
                power_area: 361578,
            },
            StrokeTiming {
                vertical: 90596966,
                direction: 242980370,
                direction_area: 24298037,
                power: 144631,
                power_area: 361578,
            },
            StrokeTiming {
                vertical: 90596966,
                direction: 242980370,
                direction_area: 24298037,
                power: 144631,
                power_area: 361578,
            },
            StrokeTiming {
                vertical: 90596966,
                direction: 242980370,
                direction_area: 24298037,
                power: 144631,
                power_area: 361578,
            },
        ],
    };

    assert_eq!(Stroke::parse(BLOCK).unwrap(), Some(expected));
}

#[test]
fn ignores_other_stuff() {
    assert_eq!(Stroke::parse(b"\0; Ball Conditions (Ball) Cricket 2004").unwrap(), None);
}

#[test]
fn empty_range_is_not_a_stroke() {
    assert_eq!(Stroke::parse(b"").unwrap(), None);
}

#[test]
fn parsing_twice_gives_the_same_stroke() {
    let first = Stroke::parse(BLOCK);
    let second = Stroke::parse(BLOCK);
    assert_eq!(first, second);
    assert!(matches!(first, Ok(Some(_))));
}

#[test]
fn keyframes_are_read_in_order() {
    let text = replace(BLOCK, "Power 144631 PowerArea 361578\n\nMode Normal KeyFrame 1", "Power 7 PowerArea 8\n\nMode Normal KeyFrame 1");
    let text = replace(&text, "Mode 6Hit KeyFrame 4\nFrame 24\nVertical 90596966", "Mode 6Hit KeyFrame 4\nFrame 24\nVertical 5");
    let stroke = Stroke::parse(&text).unwrap().unwrap();
    assert_eq!(stroke.timings_normal[0], StrokeTiming { power: 7, power_area: 8, ..same_timing() });
    assert_eq!(stroke.timings_normal[1], same_timing());
    assert_eq!(stroke.timings_hit6[4], StrokeTiming { vertical: 5, ..same_timing() });
    assert_eq!(stroke.timings_hit6[3], same_timing());
}

#[test]
fn keywords_ignore_case_and_line_endings() {
    let text = String::from_utf8(BLOCK.to_vec()).unwrap().replace('\n', "\r\n").replace("Vertical", "VERTICAL");
    let stroke = Stroke::parse(text.as_bytes()).unwrap().unwrap();
    assert_eq!(stroke.timings_hit6[2], same_timing());
}

#[test]
fn optional_edge_modifier6_may_be_absent() {
    let text = replace(BLOCK, "EdgeModifier6 10\n", "");
    let stroke = Stroke::parse(&text).unwrap().unwrap();
    assert_eq!(stroke.timings_normal[4], same_timing());
}

#[test]
fn missing_field_is_malformed_with_offset() {
    let text = replace(BLOCK, "BallBatsman 3\n", "");
    let offset = text.windows(10).position(|w| w == b"BallLength").unwrap();
    assert_eq!(
        Stroke::parse(&text),
        Err(StrokeError::Malformed { offset, excerpt: b"BallLength".to_vec() })
    );
}

#[test]
fn unreadable_numeral_is_malformed() {
    let text = replace(BLOCK, "Frame 10", "Frame 1x");
    let offset = text.windows(3).position(|w| w == b"1x\n").unwrap();
    assert_eq!(
        Stroke::parse(&text),
        Err(StrokeError::Malformed { offset, excerpt: text[offset..offset + 10].to_vec() })
    );
}

#[test]
fn oversized_numeral_is_malformed() {
    let text = replace(BLOCK, "Vertical 90596966", "Vertical 18446744073709551616");
    assert!(matches!(Stroke::parse(&text), Err(StrokeError::Malformed { .. })));
    let text = replace(BLOCK, "Vertical 90596966", "Vertical 18446744073709551615");
    let stroke = Stroke::parse(&text).unwrap().unwrap();
    assert_eq!(stroke.timings_normal[0].vertical, u64::MAX);
}

#[test]
fn record_cut_short_is_malformed_with_short_excerpt() {
    let text = b"StrokeAttributes\nType Defensive\nEdge";
    assert_eq!(
        Stroke::parse(text),
        Err(StrokeError::Malformed { offset: 32, excerpt: b"Edge".to_vec() })
    );
}

#[test]
fn marker_must_be_followed_by_a_separator() {
    let text = replace(BLOCK, "SStrokeAttributes\n", "SStrokeAttributesX");
    assert!(matches!(Stroke::parse(&text), Err(StrokeError::Malformed { offset: 19, .. })));
}

#[test]
fn parsing_stops_after_the_last_line_ending() {
    let (stroke, end) = parse_stroke(BLOCK).unwrap();
    assert_eq!(stroke.unwrap().timings_hit6[4], same_timing());
    assert_eq!(&BLOCK[end..], b"\0\0");
    let text = String::from_utf8(BLOCK.to_vec()).unwrap().replace("361578\n\0\0", "361578 \r\n\n\tnext");
    let (stroke, end) = parse_stroke(text.as_bytes()).unwrap();
    assert!(stroke.is_some());
    assert_eq!(&text.as_bytes()[end..], b"next");
    let at_end = &BLOCK[..BLOCK.len() - 3];
    assert_eq!(parse_stroke(at_end).unwrap().1, at_end.len());
}

#[test]
fn no_record_consumes_nothing() {
    assert_eq!(parse_stroke(b"\0; Ball Conditions (Ball) Cricket 2004"), Ok((None, 0)));
}
