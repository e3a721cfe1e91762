use base_any::tables;
use base_any::Decode;
use base_any::Table;
use base_any::TableError;

/// Hex scheme: a known buffer encodes to the expected text and back.
#[test]
fn hex_scenario() {
    let t = tables::hex();
    let data: Vec<u8> = vec![0xDE, 0xAD, 0xBE, 0xEF];
    assert_eq!(t.encode_str(&data), "deadbeef");
    let chars: Vec<char> = "deadbeef".chars().collect();
    assert_eq!(t.decode_vec(&chars), Ok(data));
}

/// Base-64 scheme: three bytes become four symbols of the standard alphabet.
#[test]
fn base64_scenario() {
    let t = tables::base64();
    let data: Vec<u8> = vec![0x00, 0x10, 0x83];
    assert_eq!(t.encode_str(&data), "ABCD");
}

/// A 5-bit scheme has no finalization alphabet: a single byte becomes two
/// characters, both drawn from the main alphabet at full width.
#[test]
fn base32_scenario() {
    let t = tables::base32();
    assert!(t.fini.is_empty());
    let data: Vec<u8> = vec![0xFF];
    let out = t.encode_str(&data);
    assert_eq!(out.chars().count(), 2);
    for c in out.chars() {
        assert!(t.init.contains(&c));
    }
    assert_eq!(out, "74");
}

/// A 13-bit scheme round-trips a kilobyte and is much denser than base-64.
#[test]
fn base8192_scenario() {
    let dense = tables::base8192();
    let sparse = tables::base64();
    let mut data: Vec<u8> = Vec::new();
    let mut x: u64 = 0x13198A2E03707344;
    for _ in 0..1000 {
        x = x.wrapping_mul(6364136223846793005).wrapping_add(1442695040888963407);
        data.push((x >> 48) as u8);
    }
    let out = dense.encode_str(&data);
    let chars: Vec<char> = out.chars().collect();
    assert_eq!(dense.decode_vec(&chars), Ok(data.clone()));
    let wide = sparse.encode_str(&data);
    assert!(2 * out.chars().count() < wide.chars().count());
}

/// A character outside the alphabets decodes to an error carrying it, and
/// the stream can be pulled past the error.
#[test]
fn decode_err() {
    for (_, table) in tables::all() {
        let mut chars: Vec<char> = table.encode_str(&vec![1, 2, 3]).chars().collect();
        chars.insert(0, char::MAX);
        let mut iter = Decode::new(&table, &chars);
        assert_eq!(iter.next(), Some(Err(char::MAX)));
        let rest: Vec<Result<u8, char>> = std::iter::from_fn(|| iter.next()).collect();
        assert!(rest.iter().all(|r| r.is_ok()));

        let whole = table.decode_vec(&chars);
        assert_eq!(whole, Err(char::MAX));
    }
}

/// Each configuration defect is reported as its own error.
#[test]
fn compile_errors() {
    let abc: Vec<char> = vec!['a', 'b', 'c'];
    assert!(matches!(
        Table::compile(3, abc.clone(), Vec::new()),
        Err(TableError::SizeNotPowerOfTwo)
    ));
    assert!(matches!(
        Table::compile(0, Vec::new(), Vec::new()),
        Err(TableError::SizeNotPowerOfTwo)
    ));
    assert!(matches!(
        Table::compile(1, vec!['a'], Vec::new()),
        Err(TableError::BitsOutOfRange)
    ));
    assert!(matches!(
        Table::compile(1 << 16, Vec::new(), Vec::new()),
        Err(TableError::BitsOutOfRange)
    ));
    // A duplicated symbol leaves the alphabet one short.
    assert!(matches!(
        Table::compile(4, vec!['a', 'b', 'c', 'a'], Vec::new()),
        Err(TableError::SymbolCountMismatch)
    ));
    assert!(matches!(
        Table::compile(2, vec!['a', 'b', 'c'], Vec::new()),
        Err(TableError::SymbolCountMismatch)
    ));
    assert!(Table::compile(4, vec!['a', 'b', 'c', 'd'], Vec::new()).is_ok());
}

/// Duplicating a stream before consuming it restarts it: both copies
/// produce the same remainder.
#[test]
fn clone_restart() {
    let t = tables::hex();
    let data: Vec<u8> = vec![0xAB, 0xCD];
    let mut first = t.encode_iter(&data);
    assert_eq!(first.next(), Some('a'));
    let mut second = first.clone();
    let rest1: String = std::iter::from_fn(|| first.next()).collect();
    let rest2: String = std::iter::from_fn(|| second.next()).collect();
    assert_eq!(rest1, "bcd");
    assert_eq!(rest2, "bcd");

    let chars: Vec<char> = "abcd".chars().collect();
    let mut first = t.decode_iter(&chars);
    assert_eq!(first.next(), Some(Ok(0xAB)));
    let mut second = first.clone();
    assert_eq!(first.next(), Some(Ok(0xCD)));
    assert_eq!(second.next(), Some(Ok(0xCD)));
}

/// The compiler keeps first occurrences and assigns positions as codes.
#[test]
fn compile_order() {
    let Ok(t) = Table::compile(16, "fedcba9876543210".chars().collect(), Vec::new()) else {
        panic!("expected a table");
    };
    assert_eq!(t.bits, 4);
    assert_eq!(t.decode('f'), Some((0, false)));
    assert_eq!(t.decode('0'), Some((15, false)));
    let data: Vec<u8> = vec![0x01, 0x23];
    assert_eq!(t.encode_str(&data), "fedc");
}
