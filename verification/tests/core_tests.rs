use countme::{CountDifference, DatasetCount, LayerCount};
use std::str::FromStr;

#[test]
fn layercount_from_string() {
    let s = "layer1,100\n";
    let wanted = LayerCount {
        layer: "layer1".into(),
        count: 100,
    };
    assert_eq!(wanted, LayerCount::from_str(s).unwrap())
}

#[test]
fn datasetcount_from_string() {
    let s = "layer,count
        layer1,100
        layer2,50";
    let wanted = DatasetCount(vec![
        LayerCount {
            layer: "layer1".into(),
            count: 100,
        },
        LayerCount {
            layer: "layer2".into(),
            count: 50,
        },
    ]);
    assert_eq!(wanted, DatasetCount::from_str(s).unwrap());
}

#[test]
fn datasetcount_difference() {
    let dc1 = DatasetCount::from_str(
        "layer,count
        layer1,100
        layer2,50
        layer3,500",
    )
    .unwrap();

    let dc2 = DatasetCount::from_str(
        "layer,count
        layer1,100
        layer2,0",
    )
    .unwrap();

    let diff = dc1.outer_join(&dc2);

    let wanted: Vec<CountDifference> = vec![
        CountDifference {
            layer: "layer1".into(),
            left_count: Some(100),
            right_count: Some(100),
            difference: Some(0),
        },
        CountDifference {
            layer: "layer2".into(),
            left_count: Some(50),
            right_count: Some(0),
            difference: Some(50),
        },
        CountDifference {
            layer: "layer3".into(),
            left_count: Some(500),
            right_count: None,
            difference: Some(500),
        },
    ];

    assert_eq!(diff, wanted);
}
