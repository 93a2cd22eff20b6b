use seq_geom_parser::{
    FragGeomParser, FragmentGeomDesc, GeomError, GeomLen, GeomPiece, NucStr, PiscemGeomDesc,
    SalmonSeparateGeomDesc,
};

fn parse(s: &str) -> Result<FragmentGeomDesc, GeomError> {
    FragGeomParser::parse(s)
}

fn round_trips(s: &str) -> bool {
    match parse(s) {
        Ok(d) => d.to_canonical_string() == s,
        Err(_) => false,
    }
}

fn salmon(s: &str) -> Result<SalmonSeparateGeomDesc, GeomError> {
    let d = parse(s).unwrap();
    SalmonSeparateGeomDesc::from_geom_pieces(&d.read1_desc, &d.read2_desc)
}

fn salmon_strings(s: &str) -> (String, String, String) {
    let d = salmon(s).unwrap();
    (d.barcode_desc, d.umi_desc, d.read_desc)
}

#[test]
fn round_trip_of_accepted_texts() {
    for s in [
        "1{b[16]u[12]x:}2{r:}",
        "1{b[9-10]f[ACCGT]u[12]b[10]}2{r:}",
        "1{b[16]u[12]}2{x:r[20]f[GTTTAAGAGCTAAGCTGGAA]x:}",
        "1{}2{}",
        "1{b[4294967295]}2{u[5-5]}",
        "1{r:f[T]r:}2{x[1]b:}",
        "1{u[1-9]}2{b[100]}",
    ] {
        assert!(round_trips(s), "{}", s);
    }
}

#[test]
fn parsed_pieces_keep_their_order() {
    let d = parse("1{b[9-10]f[ACCGT]u[12]b[10]}2{r:}").unwrap();
    assert_eq!(
        d.read1_desc,
        vec![
            GeomPiece::Barcode(GeomLen::LenRange(9, 10)),
            GeomPiece::Fixed(NucStr::Bases("ACCGT".to_string())),
            GeomPiece::Umi(GeomLen::FixedLen(12)),
            GeomPiece::Barcode(GeomLen::FixedLen(10)),
        ]
    );
    assert_eq!(d.read2_desc, vec![GeomPiece::ReadSeq(GeomLen::Unbounded)]);
}

#[test]
fn unknown_role_is_rejected_where_it_stands() {
    assert_eq!(parse("1{b[16]v[3]u[12]x:}2{r:}"), Err(GeomError::Syntax(7)));
}

#[test]
fn ranged_then_unbounded_is_rejected() {
    assert_eq!(parse("1{b[16]u[12-13]x:}2{r:}"), Err(GeomError::Syntax(15)));
}

#[test]
fn trailing_input_is_rejected() {
    assert_eq!(parse("1{b[16]u[12]x:}2{r:}_flargbarg"), Err(GeomError::Syntax(20)));
}

#[test]
fn two_variable_pieces_need_an_anchor_between() {
    assert!(parse("1{x:r:}2{}").is_err());
    assert!(parse("1{b[1-2]u[3]r:}2{}").is_err());
    assert!(parse("1{b[1-2]f[A]r:}2{}").is_ok());
    assert!(parse("1{x:r[20]f[GT]x:}2{}").is_ok());
}

#[test]
fn malformed_numbers_are_rejected() {
    assert!(parse("1{b[016]}2{r:}").is_err());
    assert!(parse("1{b[0]}2{r:}").is_err());
    assert!(parse("1{b[]}2{r:}").is_err());
    assert!(parse("1{b[4294967296]}2{r:}").is_err());
    assert!(parse("1{b[10-9]}2{r:}").is_err());
    assert!(parse("1{b[1-]}2{r:}").is_err());
}

#[test]
fn malformed_anchors_are_rejected() {
    assert!(parse("1{f[]}2{r:}").is_err());
    assert!(parse("1{f[acg]}2{r:}").is_err());
    assert!(parse("1{f[ACGN]}2{r:}").is_err());
    assert!(parse("1{f:}2{r:}").is_err());
}

#[test]
fn frame_errors() {
    assert_eq!(parse(""), Err(GeomError::Syntax(0)));
    assert_eq!(parse("2{r:}1{r:}"), Err(GeomError::Syntax(0)));
    assert!(parse("1{r:}").is_err());
    assert!(parse("1{r:}2{r:}}").is_err());
    assert!(parse("1{r:} 2{r:}").is_err());
    assert!(parse("1{b[16]}2{r:").is_err());
}

#[test]
fn piece_classification() {
    let fixed = GeomPiece::Umi(GeomLen::FixedLen(12));
    let ranged = GeomPiece::Barcode(GeomLen::LenRange(9, 10));
    let unbounded = GeomPiece::ReadSeq(GeomLen::Unbounded);
    let anchor = GeomPiece::Fixed(NucStr::Bases("ACG".to_string()));
    assert!(fixed.is_fixed_len() && fixed.is_bounded() && !fixed.is_complex());
    assert!(!ranged.is_fixed_len() && ranged.is_bounded() && ranged.is_complex());
    assert!(!unbounded.is_fixed_len() && !unbounded.is_bounded() && !unbounded.is_complex());
    assert!(anchor.is_fixed_len() && anchor.is_bounded() && anchor.is_complex());
}

#[test]
fn geometry_classification_agrees() {
    for (s, complex) in [
        ("1{b[16]u[12]x:}2{r:}", false),
        ("1{b[9-10]f[ACCGT]u[12]b[10]}2{r:}", true),
        ("1{b[16]u[12]}2{x:r[20]f[GTTTAAGAGCTAAGCTGGAA]x:}", true),
        ("1{b[16]}2{x[1-3]}", true),
        ("1{}2{}", false),
    ] {
        let d = parse(s).unwrap();
        assert_eq!(d.is_complex_geometry(), complex, "{}", s);
        assert_eq!(d.is_simple_geometry(), !complex, "{}", s);
    }
}

#[test]
fn piece_text() {
    assert_eq!(GeomPiece::Umi(GeomLen::LenRange(9, 10)).to_canonical_string(), "u[9-10]");
    assert_eq!(GeomPiece::Discard(GeomLen::Unbounded).to_canonical_string(), "x:");
    assert_eq!(GeomPiece::ReadSeq(GeomLen::FixedLen(150)).to_canonical_string(), "r[150]");
    assert_eq!(
        GeomPiece::Fixed(NucStr::Bases("GTTT".to_string())).to_canonical_string(),
        "f[GTTT]"
    );
}

#[test]
fn piscem_geometry_argument() {
    let d = parse("1{b[16-18]f[ACG]u[12]x:}2{r:}").unwrap();
    let p = PiscemGeomDesc::from_geom_pieces(&d.read1_desc, &d.read2_desc);
    assert_eq!(p.geometry_arg(), "1{b[16-18]f[ACG]u[12]x:}2{r:}");
    let empty = PiscemGeomDesc::from_geom_pieces(&[], &[]);
    assert_eq!(empty.geometry_arg(), "1{}2{}");
}

#[test]
fn salmon_discards_advance_the_offset() {
    let (b, u, r) = salmon_strings("1{x[4]b[16]u[12]x:}2{r[50]}");
    assert_eq!(b, "1[5-20]");
    assert_eq!(u, "1[21-32]");
    assert_eq!(r, "2[1-50]");
}

#[test]
fn salmon_joins_intervals_and_omits_empty_reads() {
    let (b, u, r) = salmon_strings("1{b[4]x[2]b[4]}2{b:}");
    assert_eq!(b, "1[1-4,7-10]2[1-end]");
    assert_eq!(u, "");
    assert_eq!(r, "");
}

#[test]
fn salmon_unbounded_after_offset() {
    let (b, u, r) = salmon_strings("1{b[16]u[12]r:}2{x[3]u:}");
    assert_eq!(b, "1[1-16]");
    assert_eq!(u, "1[17-28]2[4-end]");
    assert_eq!(r, "1[29-end]");
}

#[test]
fn salmon_refuses_complex_pieces() {
    for s in [
        "1{b[9-10]f[ACCGT]u[12]b[10]}2{r:}",
        "1{b[16]u[12]}2{x:r[20]f[GTTTAAGAGCTAAGCTGGAA]x:}",
        "1{b[16]}2{x[1-3]}",
        "1{b[16]u[10-12]}2{r:}",
    ] {
        assert_eq!(salmon(s), Err(GeomError::UnsupportedGeometry), "{}", s);
    }
}

#[test]
fn salmon_large_offsets() {
    let (b, _, r) = salmon_strings("1{x[4294967295]b[4294967295]}2{r:}");
    assert_eq!(b, "1[4294967296-8589934590]");
    assert_eq!(r, "2[1-end]");
}

#[test]
fn single_segments() {
    let cs: Vec<char> = "b[16]u[9-10]f[ACG]x:v[3]".chars().collect();
    assert_eq!(
        seq_geom_parser::parse_segment(&cs, 0),
        Some((GeomPiece::Barcode(GeomLen::FixedLen(16)), 5))
    );
    assert_eq!(
        seq_geom_parser::parse_segment(&cs, 5),
        Some((GeomPiece::Umi(GeomLen::LenRange(9, 10)), 12))
    );
    assert_eq!(
        seq_geom_parser::parse_segment(&cs, 12),
        Some((GeomPiece::Fixed(NucStr::Bases("ACG".to_string())), 18))
    );
    assert_eq!(
        seq_geom_parser::parse_segment(&cs, 18),
        Some((GeomPiece::Discard(GeomLen::Unbounded), 20))
    );
    assert_eq!(seq_geom_parser::parse_segment(&cs, 20), None);
    assert_eq!(seq_geom_parser::parse_segment(&cs, 24), None);
}
