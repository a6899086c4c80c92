use ostn15_phf::Adjustment;
use ostn15_phf::ParseError;
use ostn15_phf::GridRefs;
use ostn15_phf::Shift;
use ostn15_phf::ShiftTable;
use ostn15_phf::TableBuilder;
use ostn15_phf::build_table;
use ostn15_phf::encode_key;
use ostn15_phf::get_shifts;
use ostn15_phf::ostn15_lookup;

fn source(lines: &[&str]) -> Vec<Vec<u8>> {
    lines.iter().map(|l| l.as_bytes().to_vec()).collect()
}

fn caister_table() -> ShiftTable {
    build_table(&source(&[
        "Point_ID,ETRS89_Easting,ETRS89_Northing,E_Shift,N_Shift,G_Shift",
        "220065,651307.003,313255.686,102.787,-78.242,44.236",
    ]))
    .unwrap()
}

fn sh(thousandths: i64) -> Shift {
    Shift::from_thousandths(thousandths)
}

#[test]
fn test_internal_ffi() {
    let table = caister_table();
    assert_eq!(Some((sh(102787), sh(-78242), sh(44236))), get_shifts(&table, (651, 313)));
}

#[test]
fn test_ffi() {
    let table = caister_table();
    let gr = GridRefs {
        easting: 651,
        northing: 313,
    };
    let result = get_shifts(&table, gr.into()).unwrap();
    let adj: Adjustment = result.into();
    assert_eq!((sh(102787), sh(-78242), sh(44236)), adj.into());
}

#[test]
fn caister_key_encoding() {
    // key = 651 + 313 * 701 + 1 = 220065
    assert_eq!(220065, encode_key(651, 313));
}

#[test]
fn encoding_distinct_cells_distinct_keys() {
    let mut keys = Vec::new();
    for e in 0..7 {
        for n in 0..5 {
            keys.push(encode_key(e, n));
        }
    }
    for a in 0..keys.len() {
        for b in 0..a {
            assert_ne!(keys[a], keys[b]);
        }
    }
}

#[test]
fn lookup_by_raw_key() {
    let table = caister_table();
    assert_eq!(Some((sh(102787), sh(-78242), sh(44236))), ostn15_lookup(&table, &220065));
}

#[test]
fn roundtrip_every_source_record() {
    let table = build_table(&source(&[
        "header",
        "1,0,0,1.001,-2.002,3.003",
        "702,0,0,4.004,-5.005,6.006",
        "1403,0,0,7.007,-8.008,9.009",
        "2,0,0,-0.5,0.25,0.125",
    ]))
    .unwrap();
    // id 1 is cell (0, 0); id 702 is (0, 1); id 1403 is (0, 2); id 2 is (1, 0)
    assert_eq!(Some((sh(1001), sh(-2002), sh(3003))), get_shifts(&table, (0, 0)));
    assert_eq!(Some((sh(4004), sh(-5005), sh(6006))), get_shifts(&table, (0, 1)));
    assert_eq!(Some((sh(7007), sh(-8008), sh(9009))), get_shifts(&table, (0, 2)));
    assert_eq!(Some((sh(-500), sh(250), sh(125))), get_shifts(&table, (1, 0)));
}

#[test]
fn missing_key_returns_none() {
    let table = caister_table();
    // A key beyond the dataset's maximum id.
    assert_eq!(None, ostn15_lookup(&table, &999999));
    // A coordinate pair whose key is absent.
    assert_eq!(None, get_shifts(&table, (0, 0)));
    // Coordinates left of the coverage rectangle.
    assert_eq!(None, get_shifts(&table, (-1, 0)));
}

#[test]
fn empty_source_gives_empty_table() {
    let table = build_table(&source(&["header only"])).unwrap();
    assert_eq!(None, ostn15_lookup(&table, &1));
    assert_eq!(None, get_shifts(&table, (651, 313)));
    let no_lines = build_table(&source(&[])).unwrap();
    assert_eq!(None, ostn15_lookup(&no_lines, &1));
}

#[test]
fn duplicate_id_last_record_wins() {
    let table = build_table(&source(&[
        "header",
        "220065,0,0,1.111,2.222,3.333",
        "7,0,0,9.9,8.8,7.7",
        "220065,0,0,102.787,-78.242,44.236",
    ]))
    .unwrap();
    assert_eq!(Some((sh(102787), sh(-78242), sh(44236))), get_shifts(&table, (651, 313)));
    assert_eq!(Some((sh(9900), sh(8800), sh(7700))), ostn15_lookup(&table, &7));
}

#[test]
fn rebuild_from_unchanged_source_is_identical() {
    let lines = [
        "header",
        "220065,651307.003,313255.686,102.787,-78.242,44.236",
        "7,1,2,9.9,8.8,7.7",
        "220065,651307.003,313255.686,1.0,2.0,3.0",
    ];
    let t1 = build_table(&source(&lines)).unwrap();
    let t2 = build_table(&source(&lines)).unwrap();
    for key in [220065, 7, 0, -1, 999999, 1] {
        assert_eq!(ostn15_lookup(&t1, &key), ostn15_lookup(&t2, &key));
    }
}

#[test]
fn streaming_builder_matches_whole_source_build() {
    let lines = [
        "header",
        "220065,651307.003,313255.686,102.787,-78.242,44.236",
        "7,1,2,9.9,8.8,7.7",
    ];
    let mut b = TableBuilder::new();
    for line in lines {
        b.push_line(line.as_bytes()).unwrap();
    }
    let t1 = b.finish();
    let t2 = build_table(&source(&lines)).unwrap();
    for key in [220065, 7, 3, -5] {
        assert_eq!(ostn15_lookup(&t1, &key), ostn15_lookup(&t2, &key));
    }
}

#[test]
fn bad_line_fails_the_build() {
    let r = build_table(&source(&["header", "not-a-number,0,0,1.0,2.0,3.0"]));
    assert_eq!(Some(ParseError::BadPointId), r.err());
}

#[test]
fn header_line_is_skipped_not_parsed() {
    // The header is not a valid record, yet the build accepts it.
    let mut b = TableBuilder::new();
    assert_eq!(Ok(()), b.push_line(b"Point_ID,whatever".as_slice()));
    assert_eq!(Ok(()), b.push_line(b"5,0,0,1.0,2.0,3.0".as_slice()));
    let t = b.finish();
    assert_eq!(Some((sh(1000), sh(2000), sh(3000))), ostn15_lookup(&t, &5));
}

#[test]
fn rejected_line_leaves_builder_unchanged() {
    let mut b = TableBuilder::new();
    b.push_line(b"header").unwrap();
    b.push_line(b"5,0,0,1.0,2.0,3.0").unwrap();
    assert!(b.push_line(b"oops").is_err());
    b.push_line(b"6,0,0,4.0,5.0,6.0").unwrap();
    let t = b.finish();
    assert_eq!(Some((sh(1000), sh(2000), sh(3000))), ostn15_lookup(&t, &5));
    assert_eq!(Some((sh(4000), sh(5000), sh(6000))), ostn15_lookup(&t, &6));
    assert_eq!(None, ostn15_lookup(&t, &0));
}

#[test]
fn row_boundary_keys_do_not_collide() {
    // The last cell of one row and the first cell of the next.
    assert_eq!(701, encode_key(700, 0));
    assert_eq!(702, encode_key(0, 1));
}

#[test]
fn gridrefs_conversions() {
    let gr = GridRefs::from((651, 313));
    assert_eq!(651, gr.easting);
    assert_eq!(313, gr.northing);
    let tup: (i32, i32) = gr.into();
    assert_eq!((651, 313), tup);
}

#[test]
fn adjustment_conversions() {
    let adj = Adjustment::from((sh(1), sh(-2), sh(3)));
    assert_eq!(sh(1), adj.x_shift);
    assert_eq!(sh(-2), adj.y_shift);
    assert_eq!(sh(3), adj.z_shift);
    let tup: (Shift, Shift, Shift) = adj.into();
    assert_eq!((sh(1), sh(-2), sh(3)), tup);
}
