use sqlite_reader::ddl::sql_column_names;
use sqlite_reader::error::Error;
use sqlite_reader::parse::{parse_command, Command};
use sqlite_reader::record::row;
use sqlite_reader::value::{bytes_lt, render_col, render_int, Column};
use sqlite_reader::varint::{encode, variant};

#[test]
fn variant_single_byte() {
    assert_eq!(variant(&[0x00]).unwrap(), (0, 1));
    assert_eq!(variant(&[0x7f]).unwrap(), (127, 1));
    assert_eq!(variant(&[0x7f, 0xff]).unwrap(), (127, 1));
}

#[test]
fn variant_multi_byte() {
    // 0x82 0x2c: (2 << 7) | 0x2c = 300
    assert_eq!(variant(&[0x82, 0x2c]).unwrap(), (300, 2));
    assert_eq!(variant(&[0x87, 0x68]).unwrap(), (0x3e8, 2));
    assert_eq!(variant(&[0x81, 0x80, 0x00]).unwrap(), (1 << 14, 3));
}

#[test]
fn variant_runs_off_the_end() {
    assert_eq!(variant(&[]).unwrap_err(), Error::MalformedVarint);
    assert_eq!(variant(&[0x80]).unwrap_err(), Error::MalformedVarint);
    assert_eq!(variant(&[0xff, 0xff]).unwrap_err(), Error::MalformedVarint);
}

#[test]
fn varint_round_trip() {
    let samples: [u64; 12] = [
        0,
        1,
        127,
        128,
        300,
        16383,
        16384,
        1 << 21,
        (1 << 28) - 1,
        1 << 35,
        (1 << 49) + 12345,
        (1 << 56) - 1,
    ];
    for v in samples {
        let bytes = encode(v);
        let (back, used) = variant(&bytes).unwrap();
        assert_eq!(back, v);
        assert_eq!(used, bytes.len());
    }
}

#[test]
fn encode_exact_bytes() {
    assert_eq!(encode(0), vec![0x00]);
    assert_eq!(encode(127), vec![0x7f]);
    assert_eq!(encode(300), vec![0x82, 0x2c]);
}

#[test]
fn render_integers() {
    assert_eq!(render_int(0), b"0".to_vec());
    assert_eq!(render_int(42), b"42".to_vec());
    assert_eq!(render_int(-42), b"-42".to_vec());
    assert_eq!(render_int(i64::MIN), b"-9223372036854775808".to_vec());
    assert_eq!(render_int(i64::MAX), b"9223372036854775807".to_vec());
    assert_eq!(render_col(&Column::Text(b"pear".to_vec())), b"pear".to_vec());
}

#[test]
fn byte_order_is_lexicographic() {
    assert!(bytes_lt(b"Fuji", b"Granny Smith"));
    assert!(!bytes_lt(b"Granny Smith", b"Fuji"));
    assert!(bytes_lt(b"Fuji", b"Fujia"));
    assert!(!bytes_lt(b"Fuji", b"Fuji"));
}

#[test]
fn record_decodes_each_serial_type() {
    // header: hlen, then serial types 0, 1, 2, 3, 8, 9, text "hi" (17)
    let cell: Vec<u8> = vec![
        8, 0, 1, 2, 3, 8, 9, 17, // header
        0xfe, // type 1: -2
        0x01, 0x00, // type 2: 256
        0xff, 0xff, 0xff, // type 3: -1
        b'h', b'i',
    ];
    let (cols, used) = row(&cell, 7).unwrap();
    assert_eq!(used, cell.len());
    assert_eq!(
        cols,
        vec![
            Column::Integer(7), // rowid alias
            Column::Integer(-2),
            Column::Integer(256),
            Column::Integer(-1),
            Column::Integer(0),
            Column::Integer(1),
            Column::Text(b"hi".to_vec()),
        ]
    );
}

#[test]
fn record_refuses_unknown_serial_type() {
    let cell: Vec<u8> = vec![2, 5];
    assert_eq!(row(&cell, 0).unwrap_err(), Error::UnknownSerialType);
}

#[test]
fn record_refuses_truncated_body() {
    let cell: Vec<u8> = vec![2, 21, b'a']; // text of 4 bytes, only 1 present
    assert_eq!(row(&cell, 0).unwrap_err(), Error::ShortRead);
}

#[test]
fn column_names_from_create_table() {
    let names =
        sql_column_names(b"CREATE TABLE apples (id INTEGER PRIMARY KEY, name TEXT, color TEXT)")
            .unwrap();
    assert_eq!(names, vec![b"id".to_vec(), b"name".to_vec(), b"color".to_vec()]);
}

#[test]
fn column_names_need_parentheses() {
    assert_eq!(sql_column_names(b"CREATE TABLE t").unwrap_err(), Error::UnknownColumn);
    assert_eq!(sql_column_names(b"CREATE TABLE t ()").unwrap_err(), Error::UnknownColumn);
}

#[test]
fn parse_directives() {
    assert_eq!(parse_command(b".dbinfo").unwrap(), Command::DbInfo);
    assert_eq!(parse_command(b".tables").unwrap(), Command::Tables);
    assert_eq!(
        parse_command(b"SELECT COUNT(*) FROM apples").unwrap(),
        Command::Count { table: b"apples".to_vec() }
    );
}

#[test]
fn parse_select_shapes() {
    assert_eq!(
        parse_command(b"SELECT id, name FROM apples").unwrap(),
        Command::Select {
            cols: vec![b"id".to_vec(), b"name".to_vec()],
            table: b"apples".to_vec(),
            filter: None,
        }
    );
    assert_eq!(
        parse_command(b"select name from apples WHERE color = 'Light Green'").unwrap(),
        Command::Select {
            cols: vec![b"name".to_vec()],
            table: b"apples".to_vec(),
            filter: Some((b"color".to_vec(), b"Light Green".to_vec())),
        }
    );
}

#[test]
fn parse_rejects_other_shapes() {
    assert_eq!(parse_command(b"").unwrap_err(), Error::UnknownCommand);
    assert_eq!(parse_command(b".schema").unwrap_err(), Error::UnknownCommand);
    assert_eq!(parse_command(b"DELETE FROM apples").unwrap_err(), Error::UnknownCommand);
    assert_eq!(
        parse_command(b"SELECT name FROM apples WHERE color").unwrap_err(),
        Error::UnknownCommand
    );
}
