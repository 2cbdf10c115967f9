use voxel_sphere::pdb::{
    bytes_eq, load_atmtypenumbers_text, load_atoms_from_reader, parse_radius_table, split_lines,
    write_xyzr_from_reader, Filters, PdbOptions,
};

fn pdb_line(record: &str, name: &str, res: &str, chain: &str, resnum: i32, x: f64, y: f64, z: f64, element: &str) -> Vec<u8> {
    let line = format!(
        "{:<6}{:>5} {:<4} {:>3} {:1}{:>4}    {:>8.3}{:>8.3}{:>8.3}{:>6.2}{:>6.2}          {:>2}",
        record, 1, name, res, chain, resnum, x, y, z, 1.0, 0.0, element
    );
    line.into_bytes()
}

fn table_text() -> Vec<u8> {
    let lines = [
        "# radius table",
        "radius N_U  x 1.65 1.70   # nitrogen",
        "radius C_U  x 1.87",
        "radius O_W  x 1.40 bad",
        "ALA N N_U",
        "* C.* C_U",
        "HOH O O_W",
        "GLY CA MISSING",
        "radius",
        "XX",
    ];
    lines.join("\r\n").into_bytes()
}

fn sample() -> Vec<Vec<u8>> {
    vec![
        b"HEADER    TEST".to_vec(),
        pdb_line("ATOM", " N", "ALA", "A", 1, 11.104, 6.134, -6.504, "N"),
        pdb_line("ATOM", " CA", "ALA", "A", 1, 11.639, 6.071, -5.147, "C"),
        pdb_line("HETATM", " O", "HOH", "A", 101, 1.5, -2.25, 30.0, "O"),
        pdb_line("HETATM", "NA", "NA", "A", 102, 0.0, 0.0, 0.0, "NA"),
        b"END".to_vec(),
    ]
}

#[test]
fn xyzr_lines_with_radii() {
    let table = parse_radius_table(&table_text());
    let opts = PdbOptions::default();
    let (text, count) = write_xyzr_from_reader(&sample(), &opts, &table);
    let text = String::from_utf8(text).unwrap();
    assert_eq!(count, 4);
    let lines: Vec<&str> = text.lines().collect();
    assert_eq!(lines[0], "  11.104    6.134   -6.504 1.70");
    assert_eq!(lines[1], "  11.639    6.071   -5.147 1.87");
    assert_eq!(lines[2], "   1.500   -2.250   30.000 bad");
    assert_eq!(lines[3], "   0.000    0.000    0.000 0.01");
}

#[test]
fn xyzr_explicit_radii() {
    let table = parse_radius_table(&table_text());
    let opts = PdbOptions { use_united: false, filters: Filters::default() };
    let (text, _) = write_xyzr_from_reader(&sample(), &opts, &table);
    let text = String::from_utf8(text).unwrap();
    let lines: Vec<&str> = text.lines().collect();
    assert_eq!(lines[0], "  11.104    6.134   -6.504 1.65");
    assert_eq!(lines[2], "   1.500   -2.250   30.000 1.40");
}

#[test]
fn xyzr_filters_water_and_ions() {
    let table = parse_radius_table(&table_text());
    let mut opts = PdbOptions::default();
    opts.filters.exclude_water = true;
    let (_, count) = write_xyzr_from_reader(&sample(), &opts, &table);
    assert_eq!(count, 3);
    opts.filters.exclude_ions = true;
    let (text, count) = write_xyzr_from_reader(&sample(), &opts, &table);
    assert_eq!(count, 2);
    assert!(!String::from_utf8(text).unwrap().contains("0.01"));
    let opts = PdbOptions {
        use_united: true,
        filters: Filters { exclude_amino_acids: true, ..Filters::default() },
    };
    let (_, count) = write_xyzr_from_reader(&sample(), &opts, &table);
    assert_eq!(count, 2);
    let opts = PdbOptions {
        use_united: true,
        filters: Filters { exclude_hetatm: true, ..Filters::default() },
    };
    let (_, count) = write_xyzr_from_reader(&sample(), &opts, &table);
    assert_eq!(count, 2);
    let opts = PdbOptions {
        use_united: true,
        filters: Filters { exclude_ligands: true, exclude_nucleic_acids: true, ..Filters::default() },
    };
    let (_, count) = write_xyzr_from_reader(&sample(), &opts, &table);
    assert_eq!(count, 4);
}

#[test]
fn ligand_residue_is_filtered() {
    let table = parse_radius_table(&table_text());
    let lines = vec![
        pdb_line("HETATM", " C1", "LIG", "B", 5, 1.0, 2.0, 3.0, "C"),
        pdb_line("HETATM", " C2", "LIG", "B", 5, 1.5, 2.0, 3.0, "C"),
        pdb_line("ATOM", " N", "ALA", "A", 1, 0.0, 0.0, 0.0, "N"),
    ];
    let opts = PdbOptions {
        use_united: true,
        filters: Filters { exclude_ligands: true, ..Filters::default() },
    };
    let (text, count) = write_xyzr_from_reader(&lines, &opts, &table);
    assert_eq!(count, 1);
    assert_eq!(String::from_utf8(text).unwrap(), "   0.000    0.000    0.000 1.70\n");
}

#[test]
fn records_need_coordinates_and_a_known_tag() {
    let table = parse_radius_table(&table_text());
    let mut short = pdb_line("ATOM", " N", "ALA", "A", 1, 1.0, 2.0, 3.0, "N");
    short.truncate(40);
    let lines = vec![
        short,
        b"ATOM".to_vec(),
        pdb_line("REMARK", " N", "ALA", "A", 1, 1.0, 2.0, 3.0, "N"),
        pdb_line("atom", " N", "ALA", "A", 1, 1.0, 2.0, 3.0, "N"),
    ];
    let (text, count) = write_xyzr_from_reader(&lines, &PdbOptions::default(), &table);
    assert_eq!(count, 1);
    assert_eq!(String::from_utf8(text).unwrap(), "   1.000    2.000    3.000 1.70\n");
}

#[test]
fn hydrogen_names_normalize_to_h() {
    let table = parse_radius_table(b"* H H_U\nradius H_U x 1.00 1.10\n");
    let lines = vec![
        pdb_line("ATOM", "1HB", "ALA", "A", 1, 1.0, 2.0, 3.0, ""),
        pdb_line("ATOM", " HA", "ALA", "A", 1, 1.0, 2.0, 3.0, ""),
        pdb_line("ATOM", "HG", "ALA", "A", 1, 1.0, 2.0, 3.0, ""),
    ];
    let (text, count) = write_xyzr_from_reader(&lines, &PdbOptions::default(), &table);
    assert_eq!(count, 3);
    let text = String::from_utf8(text).unwrap();
    let radii: Vec<&str> = text.lines().map(|l| l.rsplit(' ').next().unwrap()).collect();
    assert_eq!(radii, vec!["1.10", "1.10", "0.01"]);
}

#[test]
fn atoms_in_fixed_point() {
    let table = parse_radius_table(&table_text());
    let atoms = load_atoms_from_reader(&sample(), &PdbOptions::default(), &table);
    assert_eq!(atoms.len(), 4);
    assert_eq!((atoms[0].x, atoms[0].y, atoms[0].z, atoms[0].radius), (11104, 6134, -6504, 1700));
    assert_eq!(atoms[1].radius, 1870);
    // united text "bad" does not parse, so the explicit radius stands
    assert_eq!((atoms[2].x, atoms[2].y, atoms[2].z, atoms[2].radius), (1500, -2250, 30000, 1400));
    assert_eq!(atoms[3].radius, 10);
    let mut opts = PdbOptions::default();
    opts.use_united = false;
    let atoms = load_atoms_from_reader(&sample(), &opts, &table);
    assert_eq!(atoms[0].radius, 1650);
}

#[test]
fn table_text_between_markers() {
    let raw = b"static const char* t = R\"ATM(\nradius A x 1.0\n)ATM\";\n";
    assert_eq!(load_atmtypenumbers_text(raw), b"\nradius A x 1.0\n".to_vec());
    assert_eq!(load_atmtypenumbers_text(b"plain text"), b"plain text".to_vec());
    assert_eq!(load_atmtypenumbers_text(b"R\"ATM(abc"), b"abc".to_vec());
}

#[test]
fn byte_equality() {
    assert!(bytes_eq(b"HOH", b"HOH"));
    assert!(!bytes_eq(b"HOH", b"HOD"));
    assert!(!bytes_eq(b"HOH", b"HO"));
}

#[test]
fn lines_split_like_str_lines() {
    let cases: [&str; 7] = ["", "\n", "a\nb", "a\r\nb\r\n", "a\n\nb\n", "x\r", "one"];
    for c in cases {
        let expected: Vec<Vec<u8>> = c.lines().map(|l| l.as_bytes().to_vec()).collect();
        assert_eq!(split_lines(c.as_bytes()), expected, "case {:?}", c);
    }
}

#[test]
fn rules_with_invalid_patterns_are_dropped() {
    let table = parse_radius_table(b"ALA (N BAD\nALA N GOOD\nradius BAD x 9.99\nradius GOOD x 1.23\n");
    let lines = vec![pdb_line("ATOM", " N", "ALA", "A", 1, 1.0, 2.0, 3.0, "N")];
    let (text, _) = write_xyzr_from_reader(&lines, &PdbOptions::default(), &table);
    assert_eq!(String::from_utf8(text).unwrap(), "   1.000    2.000    3.000 1.23\n");
}

#[test]
fn later_radius_definition_replaces_earlier() {
    let table = parse_radius_table(b"* N K\nradius K x 1.00 1.10\nradius K x 2.00 2.20\n");
    let lines = vec![pdb_line("ATOM", " N", "GLY", "A", 1, 1.0, 2.0, 3.0, "N")];
    let atoms = load_atoms_from_reader(&lines, &PdbOptions::default(), &table);
    assert_eq!(atoms[0].radius, 2200);
}
