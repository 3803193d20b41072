use trace4d::wavefront::{
    parse_wavefront, read_corner, read_header, read_line, Coordinates, Header, LineFault, Record,
    WavefrontError,
};

fn lines(text: &str) -> Vec<Vec<u8>> {
    text.lines().map(|l| l.as_bytes().to_vec()).collect()
}

fn b(s: &str) -> Vec<u8> {
    s.as_bytes().to_vec()
}

fn coords(x: &str, y: &str, z: &str, w: Option<&str>) -> Coordinates {
    Coordinates { x: b(x), y: b(y), z: b(z), w: w.map(b) }
}

#[test]
fn reads_a_three_dimensional_file() {
    let text = "3\n4\n1\n3\n# a comment\nv 1.0 2.0 3.0\nv  4 5 6 \nvn 0 0 1\nvt 0.5 0.5\nf 1/1/1 2/2/1 3//1 9/9/9\n";
    let w = parse_wavefront(&lines(text)).unwrap();
    assert_eq!(w.header, Header { dim: 3, vert_count: 4, ngon_count: 1, ngon_size: 3 });
    assert_eq!(w.positions, vec![coords("1.0", "2.0", "3.0", None), coords("4", "5", "6", None)]);
    assert_eq!(w.normals, vec![coords("0", "0", "1", None)]);
    assert_eq!(w.corners, vec![(1, 1), (2, 1), (3, 1)]);
}

#[test]
fn reads_a_four_dimensional_file() {
    let text = "4\n1\n1\n4\nv 1 2 3 4\nvn -1 0 0 0\nf 1/0/1 1/0/1 1/0/1 1/0/1\nf 2//2 2//2 2//2 2//2 5//5\n";
    let w = parse_wavefront(&lines(text)).unwrap();
    assert_eq!(w.header.dim, 4);
    assert_eq!(w.positions, vec![coords("1", "2", "3", Some("4"))]);
    assert_eq!(w.normals, vec![coords("-1", "0", "0", Some("0"))]);
    assert_eq!(w.corners, vec![(1, 1), (1, 1), (1, 1), (1, 1), (2, 2), (2, 2), (2, 2), (2, 2)]);
}

#[test]
fn header_only_file_is_empty() {
    let w = parse_wavefront(&lines("3\n0\n0\n4")).unwrap();
    assert!(w.positions.is_empty() && w.normals.is_empty() && w.corners.is_empty());
    assert_eq!(read_header(&lines("3\n0\n0\n4")), Ok(Header { dim: 3, vert_count: 0, ngon_count: 0, ngon_size: 4 }));
}

#[test]
fn missing_header_line() {
    assert_eq!(parse_wavefront(&lines("3\n1\n1")), Err(WavefrontError::MissingHeaderLine));
    assert_eq!(parse_wavefront(&Vec::new()), Err(WavefrontError::MissingHeaderLine));
}

#[test]
fn invalid_header_number_names_the_line() {
    assert_eq!(parse_wavefront(&lines("3\nx\n1")), Err(WavefrontError::InvalidHeaderNumber { line: 1 }));
    assert_eq!(parse_wavefront(&lines("3\n1\n1\n 4\n")), Err(WavefrontError::InvalidHeaderNumber { line: 3 }));
}

#[test]
fn wrong_component_count() {
    let r = parse_wavefront(&lines("3\n1\n1\n3\nv 1 2 3 4\n"));
    assert_eq!(r, Err(WavefrontError::BadLine { line: 4, fault: LineFault::ComponentCount }));
    let r = parse_wavefront(&lines("4\n1\n1\n3\nv 1 2 3\n"));
    assert_eq!(r, Err(WavefrontError::BadLine { line: 4, fault: LineFault::ComponentCount }));
    assert_eq!(read_line(&b("v"), 3, 3), Err(LineFault::ComponentCount));
    assert_eq!(read_line(&b("vn"), 3, 3), Err(LineFault::ComponentCount));
}

#[test]
fn split_character_in_prefix() {
    assert_eq!(read_line(&b("€"), 3, 3), Err(LineFault::SplitCharacter));
    assert_eq!(read_line(&b("vné 1 2"), 3, 3), Err(LineFault::SplitCharacter));
    assert_eq!(read_line(&b("é"), 3, 3), Ok(Record::Other));
}

#[test]
fn face_faults() {
    assert_eq!(read_line(&b("f 1/1/1 2/2/2"), 3, 3), Err(LineFault::MissingCorner));
    assert_eq!(read_line(&b("f 1/1/1 2/2 3/3/3"), 3, 3), Err(LineFault::MissingNormalIndex));
    assert_eq!(read_line(&b("f 1/1/1 x/2/2 3/3/3"), 3, 3), Err(LineFault::InvalidIndex));
    assert_eq!(read_line(&b("f 1/1/70000"), 3, 1), Err(LineFault::InvalidIndex));
    assert_eq!(read_line(&b("f "), 3, 0), Ok(Record::Face(Vec::new())));
}

#[test]
fn first_bad_line_is_reported() {
    let text = "3\n1\n1\n3\nv 1 2 3\nf 1\nv 1\n";
    assert_eq!(
        parse_wavefront(&lines(text)),
        Err(WavefrontError::BadLine { line: 5, fault: LineFault::MissingNormalIndex })
    );
}

#[test]
fn corner_parts() {
    assert_eq!(read_corner(&b("12/5/7")), Ok((12, 7)));
    assert_eq!(read_corner(&b("12//7/9")), Ok((12, 7)));
    assert_eq!(read_corner(&b("12")), Err(LineFault::MissingNormalIndex));
    assert_eq!(read_corner(&b("/1/2")), Err(LineFault::InvalidIndex));
}

#[test]
fn other_lines_skipped() {
    let base = "3\n1\n1\n3\nv 1 2 3\n";
    let with_other = "3\n1\n1\n3\nv 1 2 3\nvt 0 0\n# x\n\ns off\n";
    assert_eq!(parse_wavefront(&lines(base)), parse_wavefront(&lines(with_other)));
}

#[test]
fn appending_a_line_reads_it_last() {
    let base = "3\n1\n1\n3\nv 1 2 3\n";
    let more = "3\n1\n1\n3\nv 1 2 3\nvn 0 1 0\n";
    let a = parse_wavefront(&lines(base)).unwrap();
    let m = parse_wavefront(&lines(more)).unwrap();
    assert_eq!(m.positions, a.positions);
    assert_eq!(m.normals, vec![coords("0", "1", "0", None)]);
    match read_line(&b("vn 0 1 0"), 3, 3).unwrap() {
        Record::Normal(c) => assert_eq!(c, m.normals[0]),
        other => panic!("unexpected {:?}", other),
    }
}
