use excali_ts::excalidraw::ExcalidrawPoint;
use excali_ts::reader::read_number;

#[test]
fn point_text_reads_back() {
    for (x, y) in [(0, 0), (-625, 500), (12345, -7), (i64::MIN, i64::MAX), (5, -5)] {
        let p = ExcalidrawPoint::new(x, y);
        let text = p.to_json();
        let back = ExcalidrawPoint::from_json(&text).expect("the writer's text reads back");
        assert_eq!(back, p);
        assert_eq!(back.to_json(), text);
    }
}

#[test]
fn point_reader_rejects_other_text() {
    assert_eq!(ExcalidrawPoint::from_json(""), None);
    assert_eq!(ExcalidrawPoint::from_json("[1,2"), None);
    assert_eq!(ExcalidrawPoint::from_json("[1,2]x"), None);
    assert_eq!(ExcalidrawPoint::from_json("[,2]"), None);
    assert_eq!(ExcalidrawPoint::from_json("[1;2]"), None);
    assert_eq!(ExcalidrawPoint::from_json("[99999999999999999999,0]"), None);
    assert_eq!(ExcalidrawPoint::from_json("[1,2]"), None);
    assert_eq!(
        ExcalidrawPoint::from_json("[\n            -62.5,\n            0\n        ]"),
        Some(ExcalidrawPoint::new(-625, 0))
    );
    assert_eq!(ExcalidrawPoint::from_json("[\n            1,\n            2\n        ] "), None);
}

#[test]
fn number_reader_values() {
    assert_eq!(read_number("-62.5,", 0), Some((-625, 5)));
    assert_eq!(read_number("x50]", 1), Some((500, 3)));
    assert_eq!(read_number("7", 0), Some((70, 1)));
    assert_eq!(read_number("1.", 0), Some((10, 1)));
    assert_eq!(read_number("-", 0), None);
    assert_eq!(read_number("abc", 0), None);
    assert_eq!(read_number("-922337203685477580.8", 0), Some((i64::MIN, 21)));
    assert_eq!(read_number("922337203685477580.8", 0), None);
}
