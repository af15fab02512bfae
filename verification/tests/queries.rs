use sqlite_reader::error::Error;
use sqlite_reader::query::run_command;

// ---- a sample database file, built byte by byte ----

/// Minimal varint encoding of `v`.
fn varint(v: u64) -> Vec<u8> {
    if v == 0 {
        return vec![0];
    }
    let mut groups = Vec::new();
    let mut v = v;
    while v > 0 {
        groups.push((v & 0x7f) as u8);
        v >>= 7;
    }
    groups.reverse();
    let n = groups.len();
    groups
        .iter()
        .enumerate()
        .map(|(i, g)| if i < n - 1 { g | 0x80 } else { *g })
        .collect()
}

/// A record column for the builder: an integer, text, or the rowid alias
/// (serial type 0). `I2` and `I3` force the two- and three-byte encodings.
enum V {
    I(i64),
    I2(i64),
    I3(i64),
    T(&'static str),
    Rowid,
}

/// A record: header-length varint, serial types, bodies.
fn record(vals: &[V]) -> Vec<u8> {
    let mut types: Vec<u8> = Vec::new();
    let mut body: Vec<u8> = Vec::new();
    for v in vals {
        match v {
            V::Rowid => types.extend(varint(0)),
            V::I(i) => {
                let i = *i;
                if (-128..128).contains(&i) {
                    types.extend(varint(1));
                    body.push(i as i8 as u8);
                } else if (-32768..32768).contains(&i) {
                    types.extend(varint(2));
                    body.extend_from_slice(&(i as i16).to_be_bytes());
                } else {
                    types.extend(varint(3));
                    body.extend_from_slice(&(i as i32).to_be_bytes()[1..4]);
                }
            }
            V::I2(i) => {
                types.extend(varint(2));
                body.extend_from_slice(&(*i as i16).to_be_bytes());
            }
            V::I3(i) => {
                types.extend(varint(3));
                body.extend_from_slice(&(*i as i32).to_be_bytes()[1..4]);
            }
            V::T(s) => {
                types.extend(varint(13 + 2 * s.len() as u64));
                body.extend_from_slice(s.as_bytes());
            }
        }
    }
    let hlen = 1 + types.len();
    assert!(hlen < 128);
    let mut out = vec![hlen as u8];
    out.extend(types);
    out.extend(body);
    out
}

fn table_leaf_cell(rowid: u64, rec: &[u8]) -> Vec<u8> {
    let mut c = varint(rec.len() as u64);
    c.extend(varint(rowid));
    c.extend_from_slice(rec);
    c
}

fn index_leaf_cell(rec: &[u8]) -> Vec<u8> {
    let mut c = varint(rec.len() as u64);
    c.extend_from_slice(rec);
    c
}

fn index_interior_cell(child: u32, rec: &[u8]) -> Vec<u8> {
    let mut c = child.to_be_bytes().to_vec();
    c.extend(varint(rec.len() as u64));
    c.extend_from_slice(rec);
    c
}

fn table_interior_cell(child: u32, key: u64) -> Vec<u8> {
    let mut c = child.to_be_bytes().to_vec();
    c.extend(varint(key));
    c
}

/// A leaf page (`0x0d` or `0x0a`): cells packed at the end, pointer array
/// after the header at `hdr_at`.
fn leaf_page(page_type: u8, hdr_at: usize, page_size: usize, cells: &[Vec<u8>]) -> Vec<u8> {
    let mut page = vec![0u8; page_size];
    page[hdr_at] = page_type;
    page[hdr_at + 3..hdr_at + 5].copy_from_slice(&(cells.len() as u16).to_be_bytes());
    let mut top = page_size;
    for (i, cell) in cells.iter().enumerate() {
        top -= cell.len();
        page[top..top + cell.len()].copy_from_slice(cell);
        let off = hdr_at + 8 + 2 * i;
        page[off..off + 2].copy_from_slice(&(top as u16).to_be_bytes());
    }
    page
}

/// An interior page (`0x05` or `0x02`) with a right-most child pointer.
fn interior_page(page_type: u8, page_size: usize, cells: &[Vec<u8>], rightmost: u32) -> Vec<u8> {
    let mut page = vec![0u8; page_size];
    page[0] = page_type;
    page[3..5].copy_from_slice(&(cells.len() as u16).to_be_bytes());
    page[8..12].copy_from_slice(&rightmost.to_be_bytes());
    let mut top = page_size;
    for (i, cell) in cells.iter().enumerate() {
        top -= cell.len();
        page[top..top + cell.len()].copy_from_slice(cell);
        let off = 12 + 2 * i;
        page[off..off + 2].copy_from_slice(&(top as u16).to_be_bytes());
    }
    page
}

const PS: usize = 4096;

const APPLES_SQL: &str = "CREATE TABLE apples (id INTEGER PRIMARY KEY, name TEXT, color TEXT)";
const ORANGES_SQL: &str =
    "CREATE TABLE oranges (id INTEGER PRIMARY KEY, name TEXT, description TEXT)";
const INDEX_SQL: &str = "CREATE INDEX idx_apples_name ON apples (name)";

/// Two tables and one index: `apples` on page 2, `oranges` on page 3, the
/// index on `apples(name)` on page 4.
fn sample_db() -> Vec<u8> {
    let schema_cells = vec![
        table_leaf_cell(
            1,
            &record(&[V::T("table"), V::T("apples"), V::T("apples"), V::I(2), V::T(APPLES_SQL)]),
        ),
        table_leaf_cell(
            2,
            &record(&[V::T("table"), V::T("oranges"), V::T("oranges"), V::I(3), V::T(ORANGES_SQL)]),
        ),
        table_leaf_cell(
            3,
            &record(&[
                V::T("index"),
                V::T("idx_apples_name"),
                V::T("apples"),
                V::I(4),
                V::T(INDEX_SQL),
            ]),
        ),
    ];
    let mut p1 = leaf_page(0x0d, 100, PS, &schema_cells);
    p1[16..18].copy_from_slice(&(PS as u16).to_be_bytes());
    let apples = vec![
        table_leaf_cell(1, &record(&[V::Rowid, V::T("Granny Smith"), V::T("Light Green")])),
        table_leaf_cell(2, &record(&[V::Rowid, V::T("Fuji"), V::T("Red")])),
        table_leaf_cell(3, &record(&[V::Rowid, V::T("Honeycrisp"), V::T("Blush Red")])),
        table_leaf_cell(4, &record(&[V::Rowid, V::T("Golden Delicious"), V::T("Yellow")])),
    ];
    let p2 = leaf_page(0x0d, 0, PS, &apples);
    let oranges = vec![
        table_leaf_cell(1, &record(&[V::Rowid, V::T("Navel"), V::T("Seedless")])),
        table_leaf_cell(2, &record(&[V::Rowid, V::T("Valencia"), V::T("Juicing")])),
    ];
    let p3 = leaf_page(0x0d, 0, PS, &oranges);
    let idx = vec![
        index_leaf_cell(&record(&[V::T("Fuji"), V::I(2)])),
        index_leaf_cell(&record(&[V::T("Golden Delicious"), V::I(4)])),
        index_leaf_cell(&record(&[V::T("Granny Smith"), V::I(1)])),
        index_leaf_cell(&record(&[V::T("Honeycrisp"), V::I(3)])),
    ];
    let p4 = leaf_page(0x0a, 0, PS, &idx);
    let mut db = p1;
    db.extend(p2);
    db.extend(p3);
    db.extend(p4);
    db
}

fn run(db: &[u8], cmd: &str) -> Result<String, Error> {
    run_command(db, cmd.as_bytes()).map(|out| String::from_utf8(out).unwrap())
}

// ---- the end-to-end scenarios ----

#[test]
fn dbinfo_scenario() {
    let db = sample_db();
    assert_eq!(
        run(&db, ".dbinfo").unwrap(),
        "database page size: 4096\nnumber of tables: 3\n"
    );
}

#[test]
fn tables_scenario() {
    let db = sample_db();
    assert_eq!(run(&db, ".tables").unwrap(), "apples oranges\n");
}

#[test]
fn count_scenario() {
    let db = sample_db();
    assert_eq!(run(&db, "SELECT COUNT(*) FROM apples").unwrap(), "4\n");
}

#[test]
fn select_single_column() {
    let db = sample_db();
    assert_eq!(
        run(&db, "SELECT name FROM apples").unwrap(),
        "Granny Smith\nFuji\nHoneycrisp\nGolden Delicious\n"
    );
}

#[test]
fn select_where_full_scan() {
    let db = sample_db();
    assert_eq!(
        run(&db, "SELECT id,name FROM apples WHERE color = 'Yellow'").unwrap(),
        "4|Golden Delicious\n"
    );
}

#[test]
fn select_where_indexed() {
    let db = sample_db();
    assert_eq!(
        run(&db, "SELECT id,color FROM apples WHERE name = 'Fuji'").unwrap(),
        "2|Red\n"
    );
}

#[test]
fn select_two_columns() {
    let db = sample_db();
    assert_eq!(
        run(&db, "SELECT id,name FROM apples").unwrap(),
        "1|Granny Smith\n2|Fuji\n3|Honeycrisp\n4|Golden Delicious\n"
    );
}

#[test]
fn keywords_match_any_case() {
    let db = sample_db();
    assert_eq!(
        run(&db, "select NAME from apples where COLOR = 'Red'").unwrap_err(),
        Error::UnknownColumn
    );
    assert_eq!(
        run(&db, "select name from apples where color = 'Red'").unwrap(),
        "Fuji\n"
    );
}

#[test]
fn projection_stability_scenario() {
    let db = sample_db();
    let ab = run(&db, "SELECT id,name FROM apples").unwrap();
    let ba = run(&db, "SELECT name,id FROM apples").unwrap();
    let swapped: Vec<String> = ab
        .lines()
        .map(|l| {
            let mut parts: Vec<&str> = l.split('|').collect();
            parts.reverse();
            parts.join("|")
        })
        .collect();
    assert_eq!(ba, swapped.join("\n") + "\n");
}

#[test]
fn read_only_idempotence_scenario() {
    let db = sample_db();
    for cmd in [".dbinfo", ".tables", "SELECT name FROM apples",
        "SELECT id,color FROM apples WHERE name = 'Fuji'"] {
        assert_eq!(run(&db, cmd), run(&db, cmd));
    }
}

// ---- errors ----

#[test]
fn unknown_table_reported() {
    let db = sample_db();
    assert_eq!(run(&db, "SELECT name FROM pears").unwrap_err(), Error::UnknownTable);
    assert_eq!(run(&db, "SELECT COUNT(*) FROM pears").unwrap_err(), Error::UnknownTable);
}

#[test]
fn unknown_column_reported() {
    let db = sample_db();
    assert_eq!(run(&db, "SELECT taste FROM apples").unwrap_err(), Error::UnknownColumn);
    assert_eq!(
        run(&db, "SELECT name FROM apples WHERE taste = 'sweet'").unwrap_err(),
        Error::UnknownColumn
    );
}

#[test]
fn unknown_command_reported() {
    let db = sample_db();
    assert_eq!(run(&db, ".frob").unwrap_err(), Error::UnknownCommand);
    assert_eq!(run(&db, "INSERT INTO apples").unwrap_err(), Error::UnknownCommand);
    assert_eq!(run(&db, "SELECT name apples").unwrap_err(), Error::UnknownCommand);
}

#[test]
fn short_file_reported() {
    assert_eq!(run(&[0u8; 50], ".dbinfo").unwrap_err(), Error::ShortRead);
    let mut db = sample_db();
    db.truncate(2 * PS);
    assert_eq!(run(&db, "SELECT name FROM oranges").unwrap_err(), Error::ShortRead);
}

#[test]
fn bad_schema_page_reported() {
    let mut db = sample_db();
    db[100] = 0x0a;
    assert_eq!(run(&db, ".tables").unwrap_err(), Error::UnsupportedPageType);
}

// ---- multi-level trees ----

/// A three-level layout: the `fruit` table's root is interior (page 2) over
/// two leaves and a right-most leaf; the index root is interior (page 6)
/// with a duplicated separator key so matches split across subtrees.
fn multi_level_db() -> Vec<u8> {
    let fruit_sql = "CREATE TABLE fruit (id INTEGER PRIMARY KEY, name TEXT)";
    let fruit_idx_sql = "CREATE INDEX idx_fruit_name ON fruit (name)";
    let schema_cells = vec![
        table_leaf_cell(
            1,
            &record(&[V::T("table"), V::T("fruit"), V::T("fruit"), V::I(2), V::T(fruit_sql)]),
        ),
        table_leaf_cell(
            2,
            &record(&[
                V::T("index"),
                V::T("idx_fruit_name"),
                V::T("fruit"),
                V::I(6),
                V::T(fruit_idx_sql),
            ]),
        ),
    ];
    let mut p1 = leaf_page(0x0d, 100, PS, &schema_cells);
    p1[16..18].copy_from_slice(&(PS as u16).to_be_bytes());
    // rows 1..=6: pear, kiwi, kiwi, plum, kiwi, yuzu
    let p3 = leaf_page(
        0x0d,
        0,
        PS,
        &vec![
            table_leaf_cell(1, &record(&[V::Rowid, V::T("pear")])),
            table_leaf_cell(2, &record(&[V::Rowid, V::T("kiwi")])),
        ],
    );
    let p4 = leaf_page(
        0x0d,
        0,
        PS,
        &vec![
            table_leaf_cell(3, &record(&[V::Rowid, V::T("kiwi")])),
            table_leaf_cell(4, &record(&[V::Rowid, V::T("plum")])),
        ],
    );
    let p5 = leaf_page(
        0x0d,
        0,
        PS,
        &vec![
            table_leaf_cell(5, &record(&[V::Rowid, V::T("kiwi")])),
            table_leaf_cell(6, &record(&[V::Rowid, V::T("yuzu")])),
        ],
    );
    let p2 = interior_page(
        0x05,
        PS,
        &vec![table_interior_cell(3, 2), table_interior_cell(4, 4)],
        5,
    );
    // index entries in key order: (kiwi,2) in a leaf, (kiwi,3) as the first
    // interior cell, (kiwi,5) in the next leaf, (pear,1) as the second
    // interior cell, (plum,4) and (yuzu,6) under the right-most pointer; the
    // matches for "kiwi" are split across two subtrees and an interior cell
    let p7 = leaf_page(0x0a, 0, PS, &vec![index_leaf_cell(&record(&[V::T("kiwi"), V::I(2)]))]);
    let p8 = leaf_page(0x0a, 0, PS, &vec![index_leaf_cell(&record(&[V::T("kiwi"), V::I(5)]))]);
    let p9 = leaf_page(
        0x0a,
        0,
        PS,
        &vec![index_leaf_cell(&record(&[V::T("plum"), V::I(4)])),
            index_leaf_cell(&record(&[V::T("yuzu"), V::I(6)]))],
    );
    let p6 = interior_page(
        0x02,
        PS,
        &vec![
            index_interior_cell(7, &record(&[V::T("kiwi"), V::I(3)])),
            index_interior_cell(8, &record(&[V::T("pear"), V::I(1)])),
        ],
        9,
    );
    let mut db = p1;
    for p in [p2, p3, p4, p5, p6, p7, p8, p9] {
        db.extend(p);
    }
    db
}

#[test]
fn interior_table_scan_in_rowid_order() {
    let db = multi_level_db();
    assert_eq!(
        run(&db, "SELECT id,name FROM fruit").unwrap(),
        "1|pear\n2|kiwi\n3|kiwi\n4|plum\n5|kiwi\n6|yuzu\n"
    );
}

#[test]
fn index_probe_finds_every_duplicate() {
    let db = multi_level_db();
    // matches are split across two index subtrees and an interior cell
    let out = run(&db, "SELECT id FROM fruit WHERE name = 'kiwi'").unwrap();
    let mut ids: Vec<&str> = out.lines().collect();
    ids.sort();
    assert_eq!(ids, vec!["2", "3", "5"]);
}

#[test]
fn index_probe_rightmost_subtree() {
    let db = multi_level_db();
    assert_eq!(run(&db, "SELECT id FROM fruit WHERE name = 'yuzu'").unwrap(), "6\n");
    assert_eq!(run(&db, "SELECT id FROM fruit WHERE name = 'plum'").unwrap(), "4\n");
}

#[test]
fn index_probe_matches_full_scan() {
    let db = multi_level_db();
    for key in ["kiwi", "pear", "plum", "yuzu", "mango"] {
        let indexed = run(&db, &format!("SELECT id FROM fruit WHERE name = '{}'", key)).unwrap();
        let mut via_index: Vec<String> = indexed.lines().map(|s| s.to_string()).collect();
        via_index.sort();
        let all = run(&db, "SELECT id,name FROM fruit").unwrap();
        let mut via_scan: Vec<String> = all
            .lines()
            .filter(|l| l.split('|').nth(1) == Some(key))
            .map(|l| l.split('|').next().unwrap().to_string())
            .collect();
        via_scan.sort();
        assert_eq!(via_index, via_scan);
    }
}

#[test]
fn seek_by_rowid_through_interior() {
    let db = multi_level_db();
    // the index path issues one seek per matching rowid
    assert_eq!(run(&db, "SELECT name FROM fruit WHERE name = 'pear'").unwrap(), "pear\n");
}

/// One table whose schema row stores the root page number in the given
/// width (serial type 1, 2 or 3).
fn one_table_db(width: u8) -> Vec<u8> {
    let sql = "CREATE TABLE pets (id INTEGER PRIMARY KEY, name TEXT)";
    let root = match width {
        1 => V::I(2),
        2 => V::I2(2),
        _ => V::I3(2),
    };
    let schema_cells = vec![table_leaf_cell(
        1,
        &record(&[V::T("table"), V::T("pets"), V::T("pets"), root, V::T(sql)]),
    )];
    let mut p1 = leaf_page(0x0d, 100, PS, &schema_cells);
    p1[16..18].copy_from_slice(&(PS as u16).to_be_bytes());
    let p2 = leaf_page(
        0x0d,
        0,
        PS,
        &vec![table_leaf_cell(1, &record(&[V::Rowid, V::T("cat")]))],
    );
    let mut db = p1;
    db.extend(p2);
    db
}

#[test]
fn rootpage_in_every_stored_width() {
    for width in [1u8, 2, 3] {
        let db = one_table_db(width);
        assert_eq!(run(&db, "SELECT COUNT(*) FROM pets").unwrap(), "1\n");
        assert_eq!(run(&db, "SELECT id,name FROM pets").unwrap(), "1|cat\n");
    }
}
