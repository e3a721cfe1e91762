use vstd::prelude::*;

verus! {

use crate::table::Table;
use crate::compile::distinct;
use crate::compile::u32_to_char;
use vstd::arithmetic::power2::lemma2_to64;

/// Append the characters of a contiguous code-point range below the
/// surrogate block.
fn push_range(v: &mut Vec<char>, lo: u32, n: u32)
    requires
        lo + n <= 0xD800,
    ensures
        final(v)@.len() == old(v)@.len() + n,
        forall|k: int| 0 <= k < old(v)@.len() ==> (#[trigger] final(v)@[k]) == old(v)@[k],
        forall|k: int|
            old(v)@.len() <= k < old(v)@.len() + n ==> ((#[trigger] final(v)@[k]) as u32) == lo + (
            k - old(v)@.len()),
{
    let mut i: u32 = 0;
    while i < n
        invariant
            i <= n,
            lo + n <= 0xD800,
            v@.len() == old(v)@.len() + i,
            forall|k: int| 0 <= k < old(v)@.len() ==> (#[trigger] v@[k]) == old(v)@[k],
            forall|k: int|
                old(v)@.len() <= k < old(v)@.len() + i ==> ((#[trigger] v@[k]) as u32) == lo + (k
                    - old(v)@.len()),
        decreases n - i,
    {
        v.push(u32_to_char(lo + i));
        i = i + 1;
    }
}

/// The hexadecimal alphabet: `0-9` then `a-f`, no finalization symbols.
pub open spec fn hex_table(t: Table) -> bool {
    &&& t.wf()
    &&& t.bits == 4
    &&& t.init@.len() == 16
    &&& t.fini@.len() == 0
    &&& (forall|k: int| 0 <= k < 10 ==> ((#[trigger] t.init@[k]) as u32) == 0x30 + k)
    &&& (forall|k: int| 10 <= k < 16 ==> ((#[trigger] t.init@[k]) as u32) == 0x61 + (k - 10))
}

/// The RFC 4648 base-32 alphabet: `A-Z` then `2-7`.
pub open spec fn base32_table(t: Table) -> bool {
    &&& t.wf()
    &&& t.bits == 5
    &&& t.init@.len() == 32
    &&& t.fini@.len() == 0
    &&& (forall|k: int| 0 <= k < 26 ==> ((#[trigger] t.init@[k]) as u32) == 0x41 + k)
    &&& (forall|k: int| 26 <= k < 32 ==> ((#[trigger] t.init@[k]) as u32) == 0x32 + (k - 26))
}

/// The RFC 4648 base-32 hex-order alphabet: `0-9` then `A-V`.
pub open spec fn base32hex_table(t: Table) -> bool {
    &&& t.wf()
    &&& t.bits == 5
    &&& t.init@.len() == 32
    &&& t.fini@.len() == 0
    &&& (forall|k: int| 0 <= k < 10 ==> ((#[trigger] t.init@[k]) as u32) == 0x30 + k)
    &&& (forall|k: int| 10 <= k < 32 ==> ((#[trigger] t.init@[k]) as u32) == 0x41 + (k - 10))
}

/// The standard base-64 alphabet: `A-Z`, `a-z`, `0-9`, `+`, `/`.
pub open spec fn base64_table(t: Table) -> bool {
    &&& t.wf()
    &&& t.bits == 6
    &&& t.init@.len() == 64
    &&& t.fini@.len() == 0
    &&& (forall|k: int| 0 <= k < 26 ==> ((#[trigger] t.init@[k]) as u32) == 0x41 + k)
    &&& (forall|k: int| 26 <= k < 52 ==> ((#[trigger] t.init@[k]) as u32) == 0x61 + (k - 26))
    &&& (forall|k: int| 52 <= k < 62 ==> ((#[trigger] t.init@[k]) as u32) == 0x30 + (k - 52))
    &&& t.init@[62] as u32 == 0x2B
    &&& t.init@[63] as u32 == 0x2F
}

/// The URL-safe base-64 alphabet: `A-Z`, `a-z`, `0-9`, `-`, `_`.
pub open spec fn base64url_table(t: Table) -> bool {
    &&& t.wf()
    &&& t.bits == 6
    &&& t.init@.len() == 64
    &&& t.fini@.len() == 0
    &&& (forall|k: int| 0 <= k < 26 ==> ((#[trigger] t.init@[k]) as u32) == 0x41 + k)
    &&& (forall|k: int| 26 <= k < 52 ==> ((#[trigger] t.init@[k]) as u32) == 0x61 + (k - 26))
    &&& (forall|k: int| 52 <= k < 62 ==> ((#[trigger] t.init@[k]) as u32) == 0x30 + (k - 52))
    &&& t.init@[62] as u32 == 0x2D
    &&& t.init@[63] as u32 == 0x5F
}

/// The 10-bit alphabet: 1024 consecutive ideographs from U+4E00, with four
/// bopomofo finalization symbols from U+3105.
pub open spec fn base1024_table(t: Table) -> bool {
    &&& t.wf()
    &&& t.bits == 10
    &&& t.init@.len() == 1024
    &&& t.fini@.len() == 4
    &&& (forall|k: int| 0 <= k < 1024 ==> ((#[trigger] t.init@[k]) as u32) == 0x4E00 + k)
    &&& (forall|k: int| 0 <= k < 4 ==> ((#[trigger] t.fini@[k]) as u32) == 0x3105 + k)
}

/// The 13-bit alphabet: 8192 consecutive ideographs from U+4E00, with 32
/// finalization ideographs from U+7000.
pub open spec fn base8192_table(t: Table) -> bool {
    &&& t.wf()
    &&& t.bits == 13
    &&& t.init@.len() == 8192
    &&& t.fini@.len() == 32
    &&& (forall|k: int| 0 <= k < 8192 ==> ((#[trigger] t.init@[k]) as u32) == 0x4E00 + k)
    &&& (forall|k: int| 0 <= k < 32 ==> ((#[trigger] t.fini@[k]) as u32) == 0x7000 + k)
}

/// The hexadecimal scheme: 4 bits per symbol over `0-9a-f`.
pub fn hex() -> (t: Table)
    ensures
        hex_table(t),
{
    let mut a: Vec<char> = Vec::new();
    push_range(&mut a, 0x30, 10);
    push_range(&mut a, 0x61, 6);
    proof {
        lemma2_to64();
        assert(distinct(a@));
    }
    Table::compile_exact(4, a, Vec::new())
}

/// The unpadded base-32 scheme of RFC 4648: 5 bits per symbol over `A-Z2-7`.
pub fn base32() -> (t: Table)
    ensures
        base32_table(t),
{
    let mut a: Vec<char> = Vec::new();
    push_range(&mut a, 0x41, 26);
    push_range(&mut a, 0x32, 6);
    proof {
        lemma2_to64();
        assert(distinct(a@));
    }
    Table::compile_exact(5, a, Vec::new())
}

/// The unpadded base-32 hex-order variant: 5 bits per symbol over `0-9A-V`.
pub fn base32hex() -> (t: Table)
    ensures
        base32hex_table(t),
{
    let mut a: Vec<char> = Vec::new();
    push_range(&mut a, 0x30, 10);
    push_range(&mut a, 0x41, 22);
    proof {
        lemma2_to64();
        assert(distinct(a@));
    }
    Table::compile_exact(5, a, Vec::new())
}

/// The unpadded base-64 scheme: 6 bits per symbol over `A-Za-z0-9+/`.
pub fn base64() -> (t: Table)
    ensures
        base64_table(t),
{
    let mut a: Vec<char> = Vec::new();
    push_range(&mut a, 0x41, 26);
    push_range(&mut a, 0x61, 26);
    push_range(&mut a, 0x30, 10);
    push_range(&mut a, 0x2B, 1);
    push_range(&mut a, 0x2F, 1);
    proof {
        lemma2_to64();
        assert(distinct(a@));
    }
    Table::compile_exact(6, a, Vec::new())
}

/// The URL-safe unpadded base-64 variant: `A-Za-z0-9-_`.
pub fn base64url() -> (t: Table)
    ensures
        base64url_table(t),
{
    let mut a: Vec<char> = Vec::new();
    push_range(&mut a, 0x41, 26);
    push_range(&mut a, 0x61, 26);
    push_range(&mut a, 0x30, 10);
    push_range(&mut a, 0x2D, 1);
    push_range(&mut a, 0x5F, 1);
    proof {
        lemma2_to64();
        assert(distinct(a@));
    }
    Table::compile_exact(6, a, Vec::new())
}

/// A high-density 10-bit scheme over a dense ideograph block, with a 4-symbol
/// finalization alphabet drawn from the bopomofo block.
pub fn base1024() -> (t: Table)
    ensures
        base1024_table(t),
{
    let mut a: Vec<char> = Vec::new();
    push_range(&mut a, 0x4E00, 1024);
    let mut f: Vec<char> = Vec::new();
    push_range(&mut f, 0x3105, 4);
    proof {
        lemma2_to64();
        assert(distinct(a@));
        assert(distinct(f@));
        assert forall|i: int| 0 <= i < f@.len() implies !a@.contains(#[trigger] f@[i]) by {
            if a@.contains(f@[i]) {
                let j = choose|j: int| 0 <= j < a@.len() && a@[j] == f@[i];
            }
        }
    }
    Table::compile_exact(10, a, f)
}

/// A high-density 13-bit scheme over a dense ideograph block, with a
/// 32-symbol finalization alphabet from the same script.
pub fn base8192() -> (t: Table)
    ensures
        base8192_table(t),
{
    let mut a: Vec<char> = Vec::new();
    push_range(&mut a, 0x4E00, 8192);
    let mut f: Vec<char> = Vec::new();
    push_range(&mut f, 0x7000, 32);
    proof {
        lemma2_to64();
        assert(distinct(a@));
        assert(distinct(f@));
        assert forall|i: int| 0 <= i < f@.len() implies !a@.contains(#[trigger] f@[i]) by {
            if a@.contains(f@[i]) {
                let j = choose|j: int| 0 <= j < a@.len() && a@[j] == f@[i];
            }
        }
    }
    Table::compile_exact(13, a, f)
}

/// Every registered table, under its scheme name.
pub fn all() -> (r: Vec<(String, Table)>)
    ensures
        r@.len() == 7,
        r@[0].0@ == "hex"@ && hex_table(r@[0].1),
        r@[1].0@ == "base32"@ && base32_table(r@[1].1),
        r@[2].0@ == "base32hex"@ && base32hex_table(r@[2].1),
        r@[3].0@ == "base64"@ && base64_table(r@[3].1),
        r@[4].0@ == "base64url"@ && base64url_table(r@[4].1),
        r@[5].0@ == "base1024"@ && base1024_table(r@[5].1),
        r@[6].0@ == "base8192"@ && base8192_table(r@[6].1),
        forall|i: int| 0 <= i < r@.len() ==> (#[trigger] r@[i]).1.wf(),
{
    let mut r: Vec<(String, Table)> = Vec::new();
    r.push((String::from_str("hex"), hex()));
    r.push((String::from_str("base32"), base32()));
    r.push((String::from_str("base32hex"), base32hex()));
    r.push((String::from_str("base64"), base64()));
    r.push((String::from_str("base64url"), base64url()));
    r.push((String::from_str("base1024"), base1024()));
    r.push((String::from_str("base8192"), base8192()));
    r
}

} // verus!
