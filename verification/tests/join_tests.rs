use countme::{CountDifference, DatasetCount, LayerCount};

fn table(entries: &[(&str, u64)]) -> DatasetCount {
    DatasetCount(
        entries
            .iter()
            .map(|(name, count)| LayerCount {
                layer: (*name).into(),
                count: *count,
            })
            .collect(),
    )
}

#[test]
fn output_is_sorted_whatever_the_input_order() {
    let left = table(&[("zebra", 1), ("alpha", 2)]);
    let right = table(&[("mid", 3)]);
    let rows = left.outer_join(&right);
    let names: Vec<&str> = rows.iter().map(|r| r.layer.as_str()).collect();
    assert_eq!(names, vec!["alpha", "mid", "zebra"]);

    let rows2 = right.outer_join(&left);
    let names2: Vec<&str> = rows2.iter().map(|r| r.layer.as_str()).collect();
    assert_eq!(names2, vec!["alpha", "mid", "zebra"]);
}

#[test]
fn both_sides_difference_is_exact() {
    let left = table(&[("a", 100), ("b", 50), ("c", 3)]);
    let right = table(&[("a", 100), ("b", 0), ("c", 7)]);
    let rows = left.outer_join(&right);
    assert_eq!(
        rows,
        vec![
            CountDifference {
                layer: "a".into(),
                left_count: Some(100),
                right_count: Some(100),
                difference: Some(0),
            },
            CountDifference {
                layer: "b".into(),
                left_count: Some(50),
                right_count: Some(0),
                difference: Some(50),
            },
            CountDifference {
                layer: "c".into(),
                left_count: Some(3),
                right_count: Some(7),
                difference: Some(-4),
            },
        ]
    );
}

#[test]
fn left_only_layer_has_absent_right_count() {
    let left = table(&[("only_left", 42)]);
    let right = table(&[]);
    let rows = left.outer_join(&right);
    assert_eq!(
        rows,
        vec![CountDifference {
            layer: "only_left".into(),
            left_count: Some(42),
            right_count: None,
            difference: Some(42),
        }]
    );
}

#[test]
fn right_only_layer_has_explicit_zero_left_count() {
    let left = table(&[]);
    let right = table(&[("only_right", 9)]);
    let rows = left.outer_join(&right);
    // The documented asymmetry: the left count is an explicit zero, not
    // absent, while the difference is still the negated right count.
    assert_eq!(rows.len(), 1);
    assert_eq!(rows[0].layer, "only_right");
    assert_eq!(rows[0].left_count, Some(0));
    assert_eq!(rows[0].right_count, Some(9));
    assert_eq!(rows[0].difference, Some(-9));
}

#[test]
fn end_to_end_scenario() {
    let left = table(&[("layer1", 100), ("layer2", 50), ("layer3", 500)]);
    let right = table(&[("layer1", 100), ("layer2", 0)]);
    let rows = left.outer_join(&right);
    assert_eq!(
        rows,
        vec![
            CountDifference {
                layer: "layer1".into(),
                left_count: Some(100),
                right_count: Some(100),
                difference: Some(0),
            },
            CountDifference {
                layer: "layer2".into(),
                left_count: Some(50),
                right_count: Some(0),
                difference: Some(50),
            },
            CountDifference {
                layer: "layer3".into(),
                left_count: Some(500),
                right_count: None,
                difference: Some(500),
            },
        ]
    );
}

#[test]
fn later_duplicate_of_a_name_wins() {
    let left = table(&[("a", 1), ("a", 9)]);
    let right = table(&[("a", 4), ("a", 6)]);
    let rows = left.outer_join(&right);
    assert_eq!(
        rows,
        vec![CountDifference {
            layer: "a".into(),
            left_count: Some(9),
            right_count: Some(6),
            difference: Some(3),
        }]
    );
}

#[test]
fn widened_difference_never_wraps() {
    let left = table(&[("big", u64::MAX)]);
    let right = table(&[("big", 0), ("huge", u64::MAX)]);
    let rows = left.outer_join(&right);
    assert_eq!(rows[0].difference, Some(u64::MAX as i128));
    assert_eq!(rows[1].layer, "huge");
    assert_eq!(rows[1].left_count, Some(0));
    assert_eq!(rows[1].difference, Some(-(u64::MAX as i128)));
}
