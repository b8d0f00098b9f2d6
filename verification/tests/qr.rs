use typepaste::qr::{
    first_feedback, json_field, parse_feedback, read_feedback, Screenshot, Status,
};

#[test]
fn parse_ok_feedback() {
    let json = r#"{"seq":3,"status":"OK","md5":"abc123","err":""}"#;
    let fb = parse_feedback(json).unwrap();
    assert_eq!(fb.seq, 3);
    assert_eq!(fb.status, Status::Okay);
    assert_eq!(fb.md5, "abc123");
    assert_eq!(fb.err, "");
}

#[test]
fn parse_all_statuses() {
    for (s, expect) in [
        ("READY", Status::Ready),
        ("OK", Status::Okay),
        ("RETRY", Status::Retry),
        ("PAUSE", Status::Pause),
        ("FINISH", Status::Finish),
        ("ERROR", Status::Error),
        ("UNAUTH", Status::Unauth),
    ] {
        let json = format!(r#"{{"seq":0,"status":"{s}","md5":"","err":""}}"#);
        let fb = parse_feedback(&json).unwrap();
        assert_eq!(fb.status, expect);
    }
}

#[test]
fn parse_error_feedback_with_message() {
    let json = r#"{"seq":1,"status":"ERROR","md5":"","err":"未授权目录"}"#;
    let fb = parse_feedback(json).unwrap();
    assert_eq!(fb.status, Status::Error);
    assert_eq!(fb.err, "未授权目录");
}

#[test]
fn parse_finish_with_full_md5() {
    let json =
        r#"{"seq":127,"status":"FINISH","md5":"d41d8cd98f00b204e9800998ecf8427e","err":""}"#;
    let fb = parse_feedback(json).unwrap();
    assert_eq!(fb.seq, 127);
    assert_eq!(fb.status, Status::Finish);
    assert_eq!(fb.md5.len(), 32);
}

#[test]
fn parse_invalid_json() {
    assert!(parse_feedback("not json").is_none());
    assert!(parse_feedback(r#"{"seq":0,"status":"WAT","md5":"","err":""}"#).is_none());
    assert!(parse_feedback(r#"{"status":"OK","md5":"","err":""}"#).is_none());
}

#[test]
fn json_field_extraction() {
    let json = r#"{"seq":5,"status":"OK","md5":"aa","err":""}"#;
    assert_eq!(json_field(json, "seq"), Some("5"));
    assert_eq!(json_field(json, "status"), Some("\"OK\""));
    assert_eq!(json_field(json, "md5"), Some("\"aa\""));
    assert!(json_field(json, "nope").is_none());
}

/// The code for `{"seq":3,"status":"OK","md5":"abc123","err":""}`.
const CODE: [&str; 29] = [
    "#######...#...#######.#######",
    "#.....#..#.....#####..#.....#",
    "#.###.#.#..#..###.###.#.###.#",
    "#.###.#..#..#..##..#..#.###.#",
    "#.###.#..#..#####.###.#.###.#",
    "#.....#...######...##.#.....#",
    "#######.#.#.#.#.#.#.#.#######",
    "........#..#.#...#...........",
    "###.#####...###..#.####...#..",
    "##..#..###.###.....####....##",
    "...#.###..#####.......#.#####",
    "#.#..#...##.##.#.##.#.......#",
    "..###.#...####...#.#####.#..#",
    "##.#....#.##.#...#.##.#..#..#",
    "####.######.........####.####",
    "...##..#..#####..#...#.#.#.##",
    ".#.#..#.####.#..###.####....#",
    "..#..#.#....###.###...#..#.##",
    "#.....#..##.###.#...###.....#",
    ".###....#....#...##....#.#..#",
    "#...#.##.##.##..##########...",
    "........##...##.##..#...###.#",
    "#######.#.#.###..####.#.#..##",
    "#.....#.###..#.#.#.##...##..#",
    "#.###.#.#.#.###.###.######.#.",
    "#.###.#..#...#..#.###..###.##",
    "#.###.#.##..###.###.##..##..#",
    "#.....#.#.#..#...#.###.#.#.#.",
    "#######.##.#.##.###.##.#...##",
];

/// What is read of a picture of a code.
fn scan(code: &[&str], scale: usize, margin: usize) -> Screenshot {
    let side = (code.len() + 2 * margin) * scale;
    let cell = |at: usize| (at / scale).checked_sub(margin);
    let mut image = rqrr::PreparedImage::prepare_from_greyscale(side, side, |x, y| {
        let ink = match (cell(y), cell(x)) {
            (Some(r), Some(c)) => code.get(r).map_or(false, |row| row.chars().nth(c) == Some('#')),
            _ => false,
        };
        if ink {
            0
        } else {
            255
        }
    });
    let grids = image.detect_grids();
    Screenshot::Codes(
        grids
            .into_iter()
            .map(|g| g.decode().ok().map(|(_, text)| text))
            .collect(),
    )
}

#[test]
fn code_on_screen_is_read() {
    let fb = read_feedback(&scan(&CODE, 4, 4)).unwrap().unwrap();
    assert_eq!(fb.seq, 3);
    assert_eq!(fb.status, Status::Okay);
    assert_eq!(fb.md5, "abc123");
    assert_eq!(fb.err, "");
}

#[test]
fn screen_without_code() {
    assert!(read_feedback(&Screenshot::Codes(vec![])).unwrap().is_none());
    let other = Screenshot::Codes(vec![None, Some("hello".to_string())]);
    assert!(read_feedback(&other).unwrap().is_none());
}

#[test]
fn captures_that_fail() {
    let err = |s: Screenshot| read_feedback(&s).unwrap_err();
    assert_eq!(
        err(Screenshot::Unsupported),
        "二维码反馈通道目前仅支持 macOS"
    );
    assert_eq!(err(Screenshot::Failed("x".to_string())), "x");
    assert_eq!(
        err(Screenshot::Unreadable("bad png".to_string())),
        "二维码图片加载失败：bad png"
    );
}

#[test]
fn first_feedback_wins() {
    let codes = vec![
        None,
        Some("hello".to_string()),
        Some(r#"{"seq":7,"status":"READY","md5":""}"#.to_string()),
        Some(r#"{"seq":8,"status":"OK","md5":""}"#.to_string()),
    ];
    let fb = first_feedback(&codes).unwrap();
    assert_eq!(fb.seq, 7);
    assert_eq!(fb.err, "");
    assert!(first_feedback(&codes[..2]).is_none());
}

#[test]
fn fields_with_space() {
    let json = "{ \"seq\" : -12 , \"status\":\t\"RETRY\" , \"md5\": \"\" }";
    assert_eq!(json_field(json, "seq"), Some("-12"));
    let fb = parse_feedback(json).unwrap();
    assert_eq!(fb.seq, -12);
    assert_eq!(fb.status, Status::Retry);
    // A key without a colon has no value.
    assert_eq!(json_field("{\"seq\",1}", "seq"), None);
    // The last value may be open.
    assert_eq!(json_field("{\"中\":值 ", "中"), Some("值"));
    assert!(parse_feedback(r#"{"seq":x,"status":"OK","md5":""}"#).is_none());
}
