use ansidraw::date::{civil_date, date_text};
use ansidraw::sauce::{append, append_dated, parse, today_yyyymmdd, Sauce, REC_LEN};

#[test]
fn sauce_roundtrip() {
    let mut data = b"art bytes here".to_vec();
    let s = Sauce {
        title: "Test Piece".into(),
        author: "Jeff".into(),
        group: "ansidraw".into(),
        date: String::new(),
        comments: vec!["first comment".into(), "second".into()],
        ice: true,
    };
    append(&mut data, &s, 80, 25);
    let p = parse(&data).expect("sauce should parse");
    assert_eq!(p.title, "Test Piece");
    assert_eq!(p.author, "Jeff");
    assert_eq!(p.group, "ansidraw");
    assert_eq!(p.comments, vec!["first comment".to_string(), "second".to_string()]);
    assert!(p.ice);
    assert_eq!(p.date.len(), 8);
    // record is fixed-size at the tail
    assert_eq!(data.len(), "art bytes here".len() + 1 + 5 + 64 * 2 + REC_LEN);
}

#[test]
fn absent() {
    assert!(parse(b"no sauce here").is_none());
    assert!(parse(&[0u8; 200]).is_none());
}

#[test]
fn dated_record_layout() {
    let mut data = b"xy".to_vec();
    let s = Sauce { title: "T".into(), ..Default::default() };
    append_dated(&mut data, &s, 80, 3, "19991231");
    assert_eq!(data.len(), 2 + 1 + REC_LEN);
    assert_eq!(data[2], 0x1A);
    let rec = &data[3..];
    assert_eq!(&rec[0..7], b"SAUCE00");
    assert_eq!(rec[7], b'T');
    assert_eq!(rec[8], b' ');
    assert_eq!(&rec[82..90], b"19991231");
    assert_eq!(&rec[90..94], &[2, 0, 0, 0]); // file size of the art
    assert_eq!(&rec[94..96], &[1, 1]);
    assert_eq!(&rec[96..98], &[80, 0]);
    assert_eq!(&rec[98..100], &[3, 0]);
    assert_eq!(rec[104], 0);
    assert_eq!(rec[105], 0);
    let p = parse(&data).unwrap();
    assert_eq!(p.title, "T");
    assert_eq!(p.date, "19991231");
    assert!(p.comments.is_empty());
}

#[test]
fn fields_are_cut_and_trimmed() {
    let mut data = Vec::new();
    let long = "x".repeat(50);
    let s = Sauce { title: long, author: "Ann  ".into(), ..Default::default() };
    append_dated(&mut data, &s, 80, 1, "20240101");
    let p = parse(&data).unwrap();
    assert_eq!(p.title, "x".repeat(35));
    assert_eq!(p.author, "Ann");
}

#[test]
fn comments_without_comnt_block_are_dropped() {
    let mut data = Vec::new();
    let s = Sauce { comments: vec!["c".into()], ..Default::default() };
    append_dated(&mut data, &s, 80, 1, "20240101");
    // corrupt the COMNT signature
    data[1] = b'X';
    let p = parse(&data).unwrap();
    assert!(p.comments.is_empty());
}

#[test]
fn today_is_eight_digits() {
    let t = today_yyyymmdd();
    assert_eq!(t.len(), 8);
    assert!(t.chars().all(|c| c.is_ascii_digit()));
    assert!(t.as_str() >= "2024");
}

#[test]
fn calendar_dates() {
    assert_eq!(date_text(0), "19700101");
    assert_eq!(date_text(86399), "19700101");
    assert_eq!(date_text(86400), "19700102");
    assert_eq!(date_text(951782400), "20000229"); // leap day of a 400-year leap year
    assert_eq!(date_text(951868800), "20000301");
    assert_eq!(date_text(4107542400), "21000301"); // 2100 is no leap year
    assert_eq!(date_text(1709164800), "20240229");
    assert_eq!(civil_date(0), (1970, 1, 1));
    assert_eq!(civil_date(365), (1971, 1, 1));
    assert_eq!(civil_date(146097), (2370, 1, 1));
    assert_eq!(civil_date(11016), (2000, 2, 29));
}
