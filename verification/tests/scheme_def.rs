use base_any::parse_scheme;
use base_any::Table;

fn lines_of(text: &str) -> Vec<Vec<char>> {
    text.lines().map(|l| l.chars().collect()).collect()
}

/// A well-formed definition parses into its count and blocks, and comment
/// lines are ignored everywhere.
#[test]
fn parse_blocks() {
    let text = "-- a note\nlower-case hex\n----\n16\n-- another note\n----\n01234567\n89abcdef\n";
    let parsed = parse_scheme(&lines_of(text));
    let (size, init, fini) = parsed.expect("well-formed definition");
    assert_eq!(size, 16);
    assert_eq!(init.iter().collect::<String>(), "0123456789abcdef");
    assert!(fini.is_empty());

    let text = "doc\n----\n4\n----\nab\ncd\n----\nxy\nz\n";
    let (size, init, fini) = parse_scheme(&lines_of(text)).expect("well-formed definition");
    assert_eq!(size, 4);
    assert_eq!(init.iter().collect::<String>(), "abcd");
    assert_eq!(fini.iter().collect::<String>(), "xyz");
}

/// A malformed layout parses to nothing: no separator, a bad count, or a
/// missing second separator.
#[test]
fn parse_malformed() {
    assert!(parse_scheme(&lines_of("")).is_none());
    assert!(parse_scheme(&lines_of("just documentation\n")).is_none());
    assert!(parse_scheme(&lines_of("----\n")).is_none());
    assert!(parse_scheme(&lines_of("----\nsixteen\n----\nabc\n")).is_none());
    assert!(parse_scheme(&lines_of("----\n16\nabc\n")).is_none());
    assert!(parse_scheme(&lines_of("----\n99999999999999999999999999\n----\nabc\n")).is_none());
}

/// A parsed definition feeds the compiler and yields a working table.
#[test]
fn parse_then_compile() {
    let text = "lower-case hex\n----\n16\n----\n0123456789\nabcdef\n";
    let (size, init, fini) = parse_scheme(&lines_of(text)).expect("well-formed definition");
    let Ok(t) = Table::compile(size, init, fini) else {
        panic!("expected a table");
    };
    assert_eq!(t.bits, 4);
    let data: Vec<u8> = vec![0xDE, 0xAD, 0xBE, 0xEF];
    assert_eq!(t.encode_str(&data), "deadbeef");
}
