use base_any::tables;
use base_any::Decode;
use base_any::Encode;
use base_any::Table;
use unicode_ident::is_xid_continue;
use unicode_ident::is_xid_start;

/// Every symbol decodes back to its own code, indices past the alphabet ends
/// are absent, and characters outside both alphabets are rejected.
#[test]
fn code() {
    for (_, table) in tables::all() {
        let init_max = 1usize << table.bits;
        for code in 0..init_max {
            let ch = table.init[code];
            assert_eq!(table.decode(ch), Some((code as u32, false)));
        }
        let fin_max = if table.bits > 8 {
            1usize << (table.bits - 8)
        } else {
            0
        };
        for code in 0..fin_max {
            let ch = table.fini[code];
            assert_eq!(table.decode(ch), Some((code as u32, true)));
        }

        for code in [init_max, init_max + 1, init_max + 1000, usize::MAX] {
            assert!(table.init.get(code).is_none());
        }
        for code in [fin_max, fin_max + 1, fin_max + 1000, usize::MAX] {
            assert!(table.fini.get(code).is_none());
        }

        for ch in ['\u{E000}', '\u{10000}', char::MAX, '\u{1F600}', '\u{0084}'] {
            assert!(!table.init.contains(&ch) && !table.fini.contains(&ch));
            assert_eq!(table.decode(ch), None);
        }
    }
}

/// The high-density 13-bit alphabets hold only alphanumeric ideographs.
#[test]
fn base8192() {
    let t = tables::base8192();
    for c in t.init.iter().chain(t.fini.iter()) {
        assert!(c.is_alphanumeric());
        assert!(is_xid_continue(*c));
        assert!(matches!(c, '\u{4e00}'..='\u{9FFF}'));
    }
}

/// The 10-bit alphabets stay inside the ideograph and bopomofo blocks.
#[test]
fn base1024() {
    let t = tables::base1024();
    for c in t.init.iter().chain(t.fini.iter()) {
        assert!(matches!(c, '\u{4e00}'..='\u{9FFF}' | '\u{3100}'..='\u{312F}'));
        assert!(is_xid_start(*c));
    }
}

fn check_size(table: &Table, data: &Vec<u8>) {
    let mut iter = Encode::new(table, data);
    let mut sizes: Vec<(usize, Option<usize>)> = Vec::new();
    loop {
        sizes.push(iter.size_hint());
        if iter.next().is_none() {
            break;
        }
    }
    for (remaining, (lo, hi)) in sizes.iter().rev().enumerate() {
        assert!(*lo <= remaining);
        assert!(hi.map_or(true, |hi| remaining <= hi));
    }

    let encoded: Vec<char> = table.encode_str(data).chars().collect();
    let mut iter = Decode::new(table, &encoded);
    let mut sizes: Vec<(usize, Option<usize>)> = Vec::new();
    loop {
        sizes.push(iter.size_hint());
        if iter.next().is_none() {
            break;
        }
    }
    for (remaining, (lo, hi)) in sizes.iter().rev().enumerate() {
        assert!(*lo <= remaining);
        assert!(hi.map_or(true, |hi| remaining <= hi));
    }
}

fn check_fuse(table: &Table, data: &Vec<u8>) {
    let mut iter = Encode::new(table, data);
    while iter.next().is_some() {}
    assert!(iter.next().is_none());
    assert!(iter.next().is_none());

    let encoded: Vec<char> = table.encode_str(data).chars().collect();
    let mut iter = Decode::new(table, &encoded);
    while iter.next().is_some() {}
    assert!(iter.next().is_none());
    assert!(iter.next().is_none());
}

fn check_all(table: &Table, data: &Vec<u8>) {
    let encoded = table.encode_str(data);
    let chars: Vec<char> = encoded.chars().collect();
    let decoded = table.decode_vec(&chars);
    assert_eq!(decoded.as_deref(), Ok(data.as_slice()));

    check_size(table, data);
    check_fuse(table, data);
}

fn sample_data() -> Vec<Vec<u8>> {
    let mut all: Vec<Vec<u8>> = vec![
        Vec::new(),
        vec![0],
        vec![0xFF],
        vec![1, 2, 3],
        (0..=255).collect(),
    ];
    let mut x: u64 = 0x243F6A8885A308D3;
    let mut noise = Vec::new();
    for _ in 0..257 {
        x = x.wrapping_mul(6364136223846793005).wrapping_add(1442695040888963407);
        noise.push((x >> 56) as u8);
    }
    all.push(noise);
    all
}

/// Every code width round-trips every sample, with sound bounds and a fused
/// end of stream.
#[test]
fn bits() {
    for bits in 1..15 {
        let table = Table::with(bits);
        for data in sample_data() {
            check_all(&table, &data);
        }
    }
}
