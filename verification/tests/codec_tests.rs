use countme::{
    CountDifference, CountDifferenceVec, CountError, DatasetCount, ErrorKind, LayerCount,
};
use std::str::FromStr;

#[test]
fn csv_round_trip_scenario() {
    let text = "layer,count\nroads,120\nrivers,45\n";
    let dc = DatasetCount::from_csv(text).unwrap();
    assert_eq!(dc.0.len(), 2);
    assert_eq!(
        dc.0[0],
        LayerCount {
            layer: "roads".into(),
            count: 120,
        }
    );
    assert_eq!(
        dc.0[1],
        LayerCount {
            layer: "rivers".into(),
            count: 45,
        }
    );
    assert_eq!(dc.to_csv(), text);
}

#[test]
fn round_trip_preserves_values_and_order() {
    let dc = DatasetCount(vec![
        LayerCount {
            layer: "zebra".into(),
            count: 7,
        },
        LayerCount {
            layer: "alpha".into(),
            count: 0,
        },
        LayerCount {
            layer: "zebra".into(),
            count: 9,
        },
    ]);
    let text = dc.to_csv();
    let back = DatasetCount::from_csv(&text).unwrap();
    assert_eq!(back, dc);
}

#[test]
fn layer_count_row_round_trip() {
    let lc = LayerCount {
        layer: "parks".into(),
        count: 18446744073709551615,
    };
    let row = format!("{},{}", lc.layer, lc.count);
    assert_eq!(LayerCount::from_str(&row).unwrap(), lc);
}

#[test]
fn empty_input_is_an_error() {
    let r: Result<DatasetCount, CountError> = DatasetCount::from_csv("");
    assert!(matches!(r.unwrap_err().kind, ErrorKind::Csv(_)));
}

#[test]
fn header_only_is_empty() {
    let dc = DatasetCount::from_csv("layer,count\n").unwrap();
    assert_eq!(dc.0.len(), 0);
    let dc2 = DatasetCount::from_csv("anything at all, even without a comma").unwrap();
    assert_eq!(dc2.0.len(), 0);
}

#[test]
fn row_without_comma_is_a_csv_error() {
    let r = DatasetCount::from_csv("layer,count\nbogus\n");
    assert!(matches!(r.unwrap_err().kind, ErrorKind::Csv(_)));
}

#[test]
fn bad_count_is_a_parse_int_error() {
    let r = DatasetCount::from_csv("layer,count\nroads,x\n");
    assert!(matches!(r.unwrap_err().kind, ErrorKind::ParseInt(_)));
}

#[test]
fn count_beyond_u64_is_a_parse_int_error() {
    let r = DatasetCount::from_csv("layer,count\nroads,18446744073709551616\n");
    assert!(matches!(r.unwrap_err().kind, ErrorKind::ParseInt(_)));
}

#[test]
fn largest_count_round_trips() {
    let text = "layer,count\nroads,18446744073709551615\n";
    let dc = DatasetCount::from_csv(text).unwrap();
    assert_eq!(dc.0[0].count, u64::MAX);
    assert_eq!(dc.to_csv(), text);
}

#[test]
fn from_str_trims_but_from_csv_does_not() {
    let trimmed = DatasetCount::from_str("layer,count\n  roads , 120 ").unwrap();
    assert_eq!(
        trimmed.0[0],
        LayerCount {
            layer: "roads".into(),
            count: 120,
        }
    );
    let raw = DatasetCount::from_csv("layer,count\nroads, 120\n");
    assert!(matches!(raw.unwrap_err().kind, ErrorKind::ParseInt(_)));
}

#[test]
fn carriage_returns_before_line_feeds_are_dropped() {
    let dc = DatasetCount::from_csv("layer,count\r\nroads,120\r\n").unwrap();
    assert_eq!(
        dc.0[0],
        LayerCount {
            layer: "roads".into(),
            count: 120,
        }
    );
}

#[test]
fn layer_count_line_without_comma_is_an_error() {
    assert!(LayerCount::from_str("no comma here").is_err());
    assert!(LayerCount::from_str("roads,not a number").is_err());
}

#[test]
fn differences_serialize_with_empty_optionals() {
    let v = CountDifferenceVec(vec![
        CountDifference {
            layer: "a".into(),
            left_count: Some(1),
            right_count: None,
            difference: Some(1),
        },
        CountDifference {
            layer: "b".into(),
            left_count: Some(0),
            right_count: Some(5),
            difference: Some(-5),
        },
        CountDifference {
            layer: "c".into(),
            left_count: None,
            right_count: None,
            difference: None,
        },
    ]);
    assert_eq!(
        v.to_csv(),
        "layer,left_count,right_count,difference\na,1,,1\nb,0,5,-5\nc,,,\n"
    );
}

#[test]
fn error_kinds_carry_their_detail() {
    let g = CountError {
        kind: ErrorKind::Gdal("driver failed".into()),
    };
    assert_eq!(g.causes(), vec!["driver failed".to_string()]);
    let f = CountError {
        kind: ErrorKind::File("file missing".into()),
    };
    assert_eq!(f.causes(), vec!["file missing".to_string()]);
}

#[test]
fn error_message_and_cause() {
    let e = DatasetCount::from_csv("").unwrap_err();
    assert_eq!(e.message(), "error while couting stuff");
    let causes = e.causes();
    assert_eq!(causes.len(), 1);
    assert_eq!(causes[0], "missing header row");
}
