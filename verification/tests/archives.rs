use vetor::archives::text::{parse_decimal, parse_signed, parse_unsigned, push_decimal, split_bytes};
use vetor::archives::{
    decode, encode, export_figure, figure_to_raw, import_figure, parse_points, raw_to_figure,
    render_points, ArchiveError, FileEncoding, Point,
};
use vetor::figure::edge::{Edge, ROOT};
use vetor::figure::Figure;
use vetor::maths::Vector2;

fn written(v: i64) -> String {
    let mut out = Vec::new();
    push_decimal(&mut out, v);
    String::from_utf8(out).unwrap()
}

#[test]
fn decimals_are_read_in_thousandths() {
    assert_eq!(parse_decimal(b"50"), Some(50_000));
    assert_eq!(parse_decimal(b"-12.5"), Some(-12_500));
    assert_eq!(parse_decimal(b"+0.125"), Some(125));
    assert_eq!(parse_decimal(b"0.1259"), Some(125));
    assert_eq!(parse_decimal(b".5"), Some(500));
    assert_eq!(parse_decimal(b"5."), Some(5000));
    assert_eq!(parse_decimal(b"1000000"), Some(1_000_000_000));
    assert_eq!(parse_decimal(b"1000000.001"), None);
    assert_eq!(parse_decimal(b"."), None);
    assert_eq!(parse_decimal(b""), None);
    assert_eq!(parse_decimal(b"1e3"), None);
    assert_eq!(parse_decimal(b"1.2.3"), None);
    assert_eq!(parse_decimal(b" 1"), None);
}

#[test]
fn whole_numbers_are_read() {
    assert_eq!(parse_unsigned(b"0"), Some(0));
    assert_eq!(parse_unsigned(b"+17"), Some(17));
    assert_eq!(parse_unsigned(b"-1"), None);
    assert_eq!(parse_unsigned(b"99999999999999999999999"), None);
    assert_eq!(parse_signed(b"-2"), Some(-2));
    assert_eq!(parse_signed(b"2"), Some(2));
    assert_eq!(parse_signed(b"2x"), None);
}

#[test]
fn decimals_are_written_without_trailing_zeros() {
    assert_eq!(written(50_000), "50");
    assert_eq!(written(-12_500), "-12.5");
    assert_eq!(written(125), "0.125");
    assert_eq!(written(-1), "-0.001");
    assert_eq!(written(1_230), "1.23");
    assert_eq!(written(0), "0");
    for v in [0, 1, -1, 999, 1000, -12_345, 1_000_000_000, -1_000_000_000] {
        assert_eq!(parse_decimal(written(v).as_bytes()), Some(v));
    }
}

#[test]
fn split_keeps_empty_pieces() {
    assert_eq!(split_bytes(b"a,,b,", b','), vec![b"a".to_vec(), vec![], b"b".to_vec(), vec![]]);
    assert_eq!(split_bytes(b"", b','), vec![Vec::<u8>::new()]);
}

#[test]
fn points_are_read_line_by_line() {
    let text = "// a figure\n# of two lines\n1,0,0,0,0\n\n2,12.5,-3,0,1\n";
    let points = parse_points(text.as_bytes()).unwrap();
    assert_eq!(
        points,
        vec![
            Point { x: 0, y: 0, typ: 1, parent: 0, index: 0 },
            Point { x: 12_500, y: -3000, typ: 2, parent: 0, index: 1 },
        ]
    );
    assert_eq!(parse_points(b"1,0,0,0"), Err(ArchiveError::ParseError));
    assert_eq!(parse_points(b"1,0,0,0,0,0"), Err(ArchiveError::ParseError));
    assert_eq!(parse_points(b"1,x,0,0,0"), Err(ArchiveError::ParseError));
}

#[test]
fn a_point_must_hang_on_an_earlier_point() {
    assert_eq!(
        raw_to_figure(b"1,0,0,0,0\n1,5,5,2,1\n1,9,9,0,2").err(),
        Some(ArchiveError::InvalidIndex)
    );
    assert_eq!(raw_to_figure(b"1,0,0,0,0\n1,5,5,1,1").err(), Some(ArchiveError::InvalidIndex));
}

#[test]
fn a_figure_comes_back_from_its_text() {
    let root = Edge::new(Vector2::new(0, 0), Vector2::new(10_000, 0), ROOT, 1);
    let arm = Edge::new(Vector2::new(10_000, 0), Vector2::new(10_000, 7500), 0, 2);
    let leg = Edge::new(Vector2::new(10_000, 0), Vector2::new(20_000, -125), 0, 1);
    let figure = Figure::new(vec![root, arm, leg]).unwrap();
    let points = figure_to_raw(figure.clone());
    assert_eq!(points.len(), 4);
    assert_eq!(points[2], Point { x: 10_000, y: 7500, typ: 2, parent: 1, index: 2 });
    let text = render_points(&points);
    assert_eq!(
        String::from_utf8(text.clone()).unwrap(),
        "1,0,0,0,0\n1,10,0,0,1\n2,10,7.5,1,2\n1,20,-0.125,1,3\n"
    );
    let back = raw_to_figure(&text).unwrap();
    assert_eq!(back.len(), 3);
    for i in 0..3 {
        assert_eq!(back.get(i).unwrap(), figure.get(i).unwrap());
    }
}

#[test]
fn packed_figures_come_back() {
    let root = Edge::new(Vector2::new(0, 0), Vector2::new(10_000, 0), ROOT, 1);
    let arm = Edge::new(Vector2::new(10_000, 0), Vector2::new(10_000, 7500), 0, 2);
    let figure = Figure::new(vec![root, arm]).unwrap();
    for encoding in [FileEncoding::RAW, FileEncoding::GZIP, FileEncoding::ZLIB] {
        let bytes = export_figure(figure.clone(), encoding).unwrap();
        let back = import_figure(&bytes, encoding).unwrap();
        assert_eq!(back.len(), 2);
        assert_eq!(back.get(1).unwrap(), figure.get(1).unwrap());
    }
}

#[test]
fn the_codecs_pack_and_unpack() {
    let text = b"1,0,0,0,0\n1,50,0,0,1\n".to_vec();
    let gz = encode(&text, FileEncoding::GZIP).unwrap();
    assert_ne!(gz, text);
    assert_eq!(&gz[..2], &[0x1f, 0x8b]);
    assert_eq!(decode(&gz, FileEncoding::GZIP).unwrap(), text);
    let z = encode(&text, FileEncoding::ZLIB).unwrap();
    assert_ne!(z, text);
    assert_eq!(z[0], 0x78);
    assert_eq!(decode(&z, FileEncoding::ZLIB).unwrap(), text);
    assert_eq!(decode(&text, FileEncoding::RAW).unwrap(), text);
    assert_eq!(decode(&text, FileEncoding::GZIP), Err(ArchiveError::Corrupt));
    assert_eq!(decode(&text, FileEncoding::ZLIB), Err(ArchiveError::Corrupt));
    assert_eq!(import_figure(&text, FileEncoding::ZLIB).err(), Some(ArchiveError::Corrupt));
}

#[test]
fn a_figure_is_read_about_a_centre() {
    let figure =
        vetor::archives::import_from_raw(b"1,0,0,0,0\n1,50,0,0,1", Vector2::new(600_000, 350_000))
            .unwrap();
    let edge = *figure.get(0).unwrap();
    assert_eq!(edge.start, Vector2::new(600_000, 350_000));
    assert_eq!(edge.end, Vector2::new(650_000, 350_000));
    assert_eq!(edge.width, 50_000);
}
