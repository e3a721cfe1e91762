use vstd::prelude::*;

verus! {

use vstd::arithmetic::power2::pow2;
use vstd::arithmetic::power2::is_pow2;
use vstd::arithmetic::power2::lemma_pow2_adds;
use vstd::arithmetic::power2::lemma_pow2_pos;
use vstd::arithmetic::power2::lemma_pow2_strictly_increases;
use vstd::arithmetic::power2::lemma2_to64;
use crate::table::Table;
use crate::table::bucket_sorted;
use crate::table::has_key;
use crate::table::find_in;
use crate::table::plane_of;
use crate::table::low_of;

/// A defect in a scheme definition, detected while compiling it; no table
/// is produced and nothing of it is observable at run time.
#[derive(Debug, PartialEq, Eq)]
pub enum TableError {
    /// The declared symbol count is not a power of two.
    SizeNotPowerOfTwo,
    /// The code width lies outside `[1, 15]`.
    BitsOutOfRange,
    /// After removing duplicates, the symbols do not fill the two alphabets
    /// exactly: some character was reused across roles or is missing.
    SymbolCountMismatch,
}

/// The first occurrence of every character of `s`, in order.
pub open spec fn dedup_first(s: Seq<char>) -> Seq<char>
    decreases s.len(),
{
    if s.len() == 0 {
        Seq::empty()
    } else {
        let d = dedup_first(s.drop_last());
        if d.contains(s.last()) {
            d
        } else {
            d.push(s.last())
        }
    }
}

/// The first occurrence of every character of `s` not in `excl`, in order.
pub open spec fn dedup_excl(s: Seq<char>, excl: Seq<char>) -> Seq<char>
    decreases s.len(),
{
    if s.len() == 0 {
        Seq::empty()
    } else {
        let d = dedup_excl(s.drop_last(), excl);
        if excl.contains(s.last()) || d.contains(s.last()) {
            d
        } else {
            d.push(s.last())
        }
    }
}

/// A sequence of pairwise distinct characters.
pub open spec fn distinct(s: Seq<char>) -> bool {
    forall|i: int, j: int| 0 <= i < j < s.len() ==> s[i] != s[j]
}

proof fn lemma_dedup_first_distinct(s: Seq<char>)
    ensures
        distinct(dedup_first(s)),
    decreases s.len(),
{
    if s.len() > 0 {
        lemma_dedup_first_distinct(s.drop_last());
    }
}

proof fn lemma_dedup_excl_distinct(s: Seq<char>, excl: Seq<char>)
    ensures
        distinct(dedup_excl(s, excl)),
        forall|i: int|
            0 <= i < dedup_excl(s, excl).len() ==> !excl.contains(#[trigger] dedup_excl(s, excl)[i]),
    decreases s.len(),
{
    if s.len() > 0 {
        lemma_dedup_excl_distinct(s.drop_last(), excl);
    }
}

proof fn lemma_dedup_first_id(s: Seq<char>)
    requires
        distinct(s),
    ensures
        dedup_first(s) == s,
    decreases s.len(),
{
    if s.len() > 0 {
        assert(distinct(s.drop_last()));
        lemma_dedup_first_id(s.drop_last());
        assert(!s.drop_last().contains(s.last()));
        assert(s.drop_last().push(s.last()) =~= s);
    } else {
        assert(dedup_first(s) =~= s);
    }
}

proof fn lemma_dedup_excl_id(s: Seq<char>, excl: Seq<char>)
    requires
        distinct(s),
        forall|i: int| 0 <= i < s.len() ==> !excl.contains(#[trigger] s[i]),
    ensures
        dedup_excl(s, excl) == s,
    decreases s.len(),
{
    if s.len() > 0 {
        assert(distinct(s.drop_last()));
        lemma_dedup_excl_id(s.drop_last(), excl);
        assert(!excl.contains(s.last()));
        assert(!s.drop_last().contains(s.last()));
        assert(s.drop_last().push(s.last()) =~= s);
    } else {
        assert(dedup_excl(s, excl) =~= s);
    }
}

/// Two characters with the same plane and plane-local code point are equal.
proof fn lemma_char_from_parts(x: char, y: char)
    requires
        plane_of(x) == plane_of(y),
        low_of(x) == low_of(y),
    ensures
        x == y,
{
    vstd::arithmetic::div_mod::lemma_fundamental_div_mod(x as u32 as int, 0x10000);
    vstd::arithmetic::div_mod::lemma_fundamental_div_mod(y as u32 as int, 0x10000);
    assert(x as u32 == y as u32);
    vstd::utf8::char_u32_cast(x, x as u32);
    vstd::utf8::char_u32_cast(y, y as u32);
}

/// In a sorted bucket, the stored entry is the one binary search finds.
proof fn lemma_find_contained(b: Seq<(u16, u16)>, k: u16, w: u16)
    requires
        bucket_sorted(b),
        b.contains((k, w)),
    ensures
        find_in(b, k) == Some(w),
{
    let i = choose|i: int| 0 <= i < b.len() && b[i] == (k, w);
    assert(b[i].0 == k);
    assert(has_key(b, k));
    let j = choose|j: int| 0 <= j < b.len() && (#[trigger] b[j]).0 == k;
    assert(j == i);
}

/// Whether an entry of a plane bucket corresponds to a symbol of one of the
/// two alphabets that lies in plane `q`.
pub open spec fn entry_for(init: Seq<char>, fini: Seq<char>, e: (u16, u16), q: int) -> bool {
    ||| (exists|c: int|
        0 <= c < fini.len() && plane_of(#[trigger] fini[c]) == q && low_of(fini[c]) == e.0
            && e.1 == c + 0x8000)
    ||| (exists|c: int|
        0 <= c < init.len() && plane_of(#[trigger] init[c]) == q && low_of(init[c]) == e.0
            && e.1 == c)
}

/// The bucket for plane `q` holds exactly the symbols of that plane.
pub open spec fn bucket_full(init: Seq<char>, fini: Seq<char>, b: Seq<(u16, u16)>, q: int) -> bool {
    &&& bucket_sorted(b)
    &&& (forall|c: int|
        0 <= c < fini.len() && plane_of(#[trigger] fini[c]) == q ==> b.contains(
            (low_of(fini[c]) as u16, (c + 0x8000) as u16),
        ))
    &&& (forall|c: int|
        0 <= c < init.len() && plane_of(#[trigger] init[c]) == q ==> b.contains(
            (low_of(init[c]) as u16, c as u16),
        ))
    &&& (forall|i: int| 0 <= i < b.len() ==> entry_for(init, fini, #[trigger] b[i], q))
}

/// Membership test by linear scan.
fn contains_char(v: &Vec<char>, c: char) -> (r: bool)
    ensures
        r == v@.contains(c),
{
    let mut i: usize = 0;
    while i < v.len()
        invariant
            i <= v@.len(),
            forall|j: int| 0 <= j < i ==> v@[j] != c,
        decreases v@.len() - i,
    {
        if v[i] == c {
            return true;
        }
        i = i + 1;
    }
    false
}

/// Insert an entry into a bucket, keeping it sorted by code point.
fn insert_sorted(b: &mut Vec<(u16, u16)>, key: u16, word: u16)
    requires
        bucket_sorted(old(b)@),
        !has_key(old(b)@, key),
    ensures
        bucket_sorted(final(b)@),
        final(b)@.len() == old(b)@.len() + 1,
        forall|e: (u16, u16)|
            #[trigger] final(b)@.contains(e) <==> old(b)@.contains(e) || e == (key, word),
{
    let mut i: usize = 0;
    while i < b.len()
        invariant
            i <= b@.len(),
            b@ == old(b)@,
            !has_key(b@, key),
            forall|j: int| 0 <= j < i ==> (#[trigger] b@[j]).0 < key,
        ensures
            i <= b@.len(),
            b@ == old(b)@,
            forall|j: int| 0 <= j < i ==> (#[trigger] b@[j]).0 < key,
            i < b@.len() ==> key < b@[i as int].0,
        decreases b@.len() - i,
    {
        let e = b[i];
        if e.0 > key {
            break;
        }
        proof {
            assert(b@[i as int] == e);
            if e.0 == key {
                assert(has_key(b@, key));
            }
        }
        i = i + 1;
    }
    let ghost pre = b@;
    b.insert(i, (key, word));
    proof {
        assert(forall|j: int| 0 <= j < i ==> (#[trigger] b@[j]) == pre[j]);
        assert(forall|j: int| i < j < b@.len() ==> (#[trigger] b@[j]) == pre[j - 1]);
        assert(b@[i as int] == (key, word));
        assert forall|j: int| i <= j < pre.len() implies key < (#[trigger] pre[j]).0 by {
            if j > i {
                assert(pre[i as int].0 < pre[j].0);
            }
        }
        assert forall|e: (u16, u16)| #[trigger] b@.contains(e) implies pre.contains(e) || e == (
            key,
            word,
        ) by {
            let j = choose|j: int| 0 <= j < b@.len() && b@[j] == e;
            if j < i {
                assert(pre[j] == e);
            } else if j > i {
                assert(pre[j - 1] == e);
            }
        }
        assert forall|e: (u16, u16)| pre.contains(e) || e == (key, word) implies #[trigger] b@
            .contains(e) by {
            if pre.contains(e) {
                let j = choose|j: int| 0 <= j < pre.len() && pre[j] == e;
                if j < i {
                    assert(b@[j] == e);
                } else {
                    assert(b@[j + 1] == e);
                }
            } else {
                assert(b@[i as int] == e);
            }
        }
    }
}

/// Plane index and plane-local code point of a character.
fn split_char(ch: char) -> (r: (usize, u16))
    ensures
        r.0 == plane_of(ch),
        r.0 < 17,
        r.1 == low_of(ch) as u16,
{
    let cu = ch as u32;
    proof {
        vstd::utf8::char_is_scalar(ch);
        vstd::bits::lemma_u32_shr_is_div(cu, 16);
        vstd::bits::lemma_u32_low_bits_mask_is_mod(cu, 16);
        vstd::bits::lemma_low_bits_mask_values();
        lemma2_to64();
    }
    ((cu >> 16) as usize, (cu & 0xFFFF) as u16)
}

impl Table {
    /// Compile a scheme definition into a table: check that the declared
    /// symbol count is a power of two with a code width in `[1, 15]`, keep
    /// the first occurrence of every character (a character in both blocks
    /// counts as a main one), check that the survivors fill both alphabets
    /// exactly, and build the per-plane sorted decode index.
    pub fn compile(size: usize, init_block: Vec<char>, fini_block: Vec<char>) -> (r: Result<
        Table,
        TableError,
    >)
        ensures
            ({
                let init = dedup_first(init_block@);
                let fini = dedup_excl(fini_block@, init);
                let fin_size = if size > 256 {
                    size / 256
                } else {
                    0
                };
                match r {
                    Ok(t) => {
                        &&& t.wf()
                        &&& pow2(t.bits as nat) == size
                        &&& t.init@ == init
                        &&& t.fini@ == fini
                    },
                    Err(e) => match e {
                        TableError::SizeNotPowerOfTwo => !is_pow2(size as int),
                        TableError::BitsOutOfRange => is_pow2(size as int) && !(2 <= size
                            <= 0x8000),
                        TableError::SymbolCountMismatch => is_pow2(size as int) && 2 <= size
                            <= 0x8000 && (init.len() != size || fini.len() != fin_size),
                    },
                }
            }),
    {
        // Find the exponent of the declared size.
        if size == 0 {
            proof {
                reveal(is_pow2);
            }
            return Err(TableError::SizeNotPowerOfTwo);
        }
        let mut n: usize = size;
        let mut e: u32 = 0;
        proof {
            lemma_pow2_pos(0);
            lemma2_to64();
        }
        while n % 2 == 0 && n >= 2
            invariant
                n >= 1,
                size as int == n * pow2(e as nat),
                pow2(e as nat) <= size as int,
                is_pow2(size as int) == is_pow2(n as int),
                e <= 64,
            decreases n,
        {
            proof {
                reveal(is_pow2);
                lemma_pow2_adds(e as nat, 1);
                lemma2_to64();
                lemma_pow2_pos((e + 1) as nat);
                assert((n / 2) * pow2((e + 1) as nat) == n * pow2(e as nat)) by (nonlinear_arith)
                    requires
                        n % 2 == 0,
                        n >= 2,
                        pow2((e + 1) as nat) == pow2(e as nat) * 2,
                ;
                assert(1 * pow2((e + 1) as nat) <= (n / 2) * pow2((e + 1) as nat))
                    by (nonlinear_arith)
                    requires
                        n / 2 >= 1,
                        pow2((e + 1) as nat) > 0,
                ;
                assert(e < 64) by {
                    if e >= 64 {
                        lemma_pow2_strictly_increases(63, e as nat);
                        lemma2_to64();
                        vstd::arithmetic::power2::lemma2_to64_rest();
                    }
                }
            }
            n = n / 2;
            e = e + 1;
        }
        if n != 1 {
            proof {
                reveal(is_pow2);
            }
            return Err(TableError::SizeNotPowerOfTwo);
        }
        proof {
            reveal(is_pow2);
            assert(is_pow2(size as int));
        }
        let bits = e;
        if bits < 1 || bits > 15 {
            proof {
                if bits < 1 {
                    assert(size == 1);
                } else {
                    lemma_pow2_strictly_increases(15, bits as nat);
                    lemma2_to64();
                }
            }
            return Err(TableError::BitsOutOfRange);
        }
        proof {
            lemma2_to64();
            assert(2 <= size <= 0x8000) by {
                if bits > 1 {
                    lemma_pow2_strictly_increases(1, bits as nat);
                }
                if bits < 15 {
                    lemma_pow2_strictly_increases(bits as nat, 15);
                }
            }
        }
        let fin_size: usize = if bits > 8 {
            1usize << (bits - 8)
        } else {
            0
        };
        proof {
            if bits > 8 {
                vstd::bits::lemma_usize_pow2_no_overflow((bits - 8) as nat);
                vstd::bits::lemma_usize_shl_is_mul(1usize, (bits - 8) as usize);
                lemma_pow2_adds((bits - 8) as nat, 8);
                lemma2_to64();
                assert(size == pow2((bits - 8) as nat) * 256);
                vstd::arithmetic::div_mod::lemma_div_by_multiple(
                    pow2((bits - 8) as nat) as int,
                    256,
                );
                assert(fin_size == size / 256);
                vstd::arithmetic::power2::lemma_pow2_strictly_increases(8, bits as nat);
            } else {
                if bits < 8 {
                    lemma_pow2_strictly_increases(bits as nat, 8);
                }
                lemma2_to64();
            }
        }
        // Keep the first occurrence of every character, main block first.
        let mut init_v: Vec<char> = Vec::new();
        let mut i: usize = 0;
        while i < init_block.len()
            invariant
                i <= init_block@.len(),
                init_v@ == dedup_first(init_block@.take(i as int)),
            decreases init_block@.len() - i,
        {
            let c = init_block[i];
            proof {
                assert(init_block@.take(i + 1).drop_last() =~= init_block@.take(i as int));
                assert(init_block@.take(i + 1).last() == c);
            }
            if !contains_char(&init_v, c) {
                init_v.push(c);
            }
            i = i + 1;
        }
        assert(init_block@.take(init_block@.len() as int) =~= init_block@);
        let mut fini_v: Vec<char> = Vec::new();
        let mut i: usize = 0;
        while i < fini_block.len()
            invariant
                i <= fini_block@.len(),
                init_v@ == dedup_first(init_block@),
                fini_v@ == dedup_excl(fini_block@.take(i as int), init_v@),
            decreases fini_block@.len() - i,
        {
            let c = fini_block[i];
            proof {
                assert(fini_block@.take(i + 1).drop_last() =~= fini_block@.take(i as int));
                assert(fini_block@.take(i + 1).last() == c);
            }
            if !contains_char(&init_v, c) && !contains_char(&fini_v, c) {
                fini_v.push(c);
            }
            i = i + 1;
        }
        assert(fini_block@.take(fini_block@.len() as int) =~= fini_block@);
        // The survivors must fill both alphabets exactly.
        if init_v.len() != size || fini_v.len() != fin_size {
            proof {
                assert(is_pow2(size as int));
                assert(2 <= size <= 0x8000);
                assert(fin_size as int == if size > 256 {
                    size as int / 256
                } else {
                    0int
                });
                assert(init_v@ == dedup_first(init_block@));
                assert(fini_v@ == dedup_excl(fini_block@, dedup_first(init_block@)));
            }
            return Err(TableError::SymbolCountMismatch);
        }
        proof {
            lemma_dedup_first_distinct(init_block@);
            lemma_dedup_excl_distinct(fini_block@, init_v@);
        }
        // Build the decode index, one plane bucket at a time.
        let ghost init_s = init_v@;
        let ghost fini_s = fini_v@;
        let mut planes: Vec<Vec<(u16, u16)>> = Vec::new();
        let mut p: usize = 0;
        while p < 17
            invariant
                p <= 17,
                planes@.len() == p,
                init_s == init_v@,
                fini_s == fini_v@,
                distinct(init_s),
                distinct(fini_s),
                forall|i: int| 0 <= i < fini_s.len() ==> !init_s.contains(#[trigger] fini_s[i]),
                fini_s.len() < 0x8000,
                init_s.len() <= 0x8000,
                forall|q: int|
                    0 <= q < p ==> bucket_full(init_s, fini_s, #[trigger] planes@[q]@, q),
            decreases 17 - p,
        {
            let b = Self::build_bucket(&init_v, &fini_v, p);
            planes.push(b);
            p = p + 1;
        }
        let t = Table { bits, fini: fini_v, init: init_v, planes };
        proof {
            lemma_compiled_wf(&t);
        }
        Ok(t)
    }

    /// Collect and sort the decode entries of one plane.
    fn build_bucket(init_v: &Vec<char>, fini_v: &Vec<char>, p: usize) -> (b: Vec<(u16, u16)>)
        requires
            distinct(init_v@),
            distinct(fini_v@),
            forall|i: int| 0 <= i < fini_v@.len() ==> !init_v@.contains(#[trigger] fini_v@[i]),
            fini_v@.len() < 0x8000,
            init_v@.len() <= 0x8000,
        ensures
            bucket_full(init_v@, fini_v@, b@, p as int),
    {
        let ghost init_s = init_v@;
        let ghost fini_s = fini_v@;
        let mut b: Vec<(u16, u16)> = Vec::new();
        let mut c: usize = 0;
        while c < fini_v.len()
            invariant
                c <= fini_s.len(),
                init_s == init_v@,
                fini_s == fini_v@,
                distinct(fini_s),
                fini_s.len() < 0x8000,
                bucket_sorted(b@),
                forall|k: int|
                    0 <= k < c && plane_of(#[trigger] fini_s[k]) == p ==> b@.contains(
                        (low_of(fini_s[k]) as u16, (k + 0x8000) as u16),
                    ),
                forall|en: (u16, u16)|
                    #[trigger] b@.contains(en) ==> exists|k: int|
                        0 <= k < c && plane_of(#[trigger] fini_s[k]) == p && low_of(fini_s[k])
                            == en.0 && en.1 == k + 0x8000,
            decreases fini_s.len() - c,
        {
            let ch = fini_v[c];
            let pk = split_char(ch);
            if pk.0 == p {
                proof {
                    if has_key(b@, pk.1) {
                        let i = choose|i: int| 0 <= i < b@.len() && (#[trigger] b@[i]).0 == pk.1;
                        assert(b@.contains(b@[i]));
                        let k = choose|k: int|
                            0 <= k < c && plane_of(#[trigger] fini_s[k]) == p && low_of(fini_s[k])
                                == b@[i].0 && b@[i].1 == k + 0x8000;
                        lemma_char_from_parts(fini_s[k], fini_s[c as int]);
                        assert(false);
                    }
                }
                let word = c as u16 + 0x8000;
                let ghost pre_b = b@;
                insert_sorted(&mut b, pk.1, word);
                proof {
                    assert forall|en: (u16, u16)| #[trigger] b@.contains(en) implies exists|k: int|
                        0 <= k < c + 1 && plane_of(#[trigger] fini_s[k]) == p && low_of(fini_s[k])
                            == en.0 && en.1 == k + 0x8000 by {
                        if pre_b.contains(en) {
                            let k0 = choose|k: int|
                                0 <= k < c && plane_of(#[trigger] fini_s[k]) == p && low_of(
                                    fini_s[k],
                                ) == en.0 && en.1 == k + 0x8000;
                            assert(0 <= k0 < c + 1 && plane_of(fini_s[k0]) == p && low_of(
                                fini_s[k0],
                            ) == en.0 && en.1 == k0 + 0x8000);
                        } else {
                            assert(en == (pk.1, word));
                            assert(0 <= c < c + 1 && plane_of(fini_s[c as int]) == p && low_of(
                                fini_s[c as int],
                            ) == en.0 && en.1 == c + 0x8000);
                        }
                    }
                }
            } else {
                proof {
                    assert forall|en: (u16, u16)| #[trigger] b@.contains(en) implies exists|k: int|
                        0 <= k < c + 1 && plane_of(#[trigger] fini_s[k]) == p && low_of(fini_s[k])
                            == en.0 && en.1 == k + 0x8000 by {
                        let k0 = choose|k: int|
                            0 <= k < c && plane_of(#[trigger] fini_s[k]) == p && low_of(fini_s[k])
                                == en.0 && en.1 == k + 0x8000;
                        assert(0 <= k0 < c + 1 && plane_of(fini_s[k0]) == p && low_of(fini_s[k0])
                            == en.0 && en.1 == k0 + 0x8000);
                    }
                }
            }
            c = c + 1;
        }
        let mut c: usize = 0;
        while c < init_v.len()
            invariant
                c <= init_s.len(),
                init_s == init_v@,
                fini_s == fini_v@,
                distinct(init_s),
                distinct(fini_s),
                forall|i: int| 0 <= i < fini_s.len() ==> !init_s.contains(#[trigger] fini_s[i]),
                init_s.len() <= 0x8000,
                fini_s.len() < 0x8000,
                bucket_sorted(b@),
                forall|k: int|
                    0 <= k < fini_s.len() && plane_of(#[trigger] fini_s[k]) == p ==> b@.contains(
                        (low_of(fini_s[k]) as u16, (k + 0x8000) as u16),
                    ),
                forall|k: int|
                    0 <= k < c && plane_of(#[trigger] init_s[k]) == p ==> b@.contains(
                        (low_of(init_s[k]) as u16, k as u16),
                    ),
                forall|en: (u16, u16)|
                    #[trigger] b@.contains(en) ==> entry_up_to(init_s, fini_s, en, p as int, c as int),
            decreases init_s.len() - c,
        {
            let ch = init_v[c];
            let pk = split_char(ch);
            if pk.0 == p {
                proof {
                    if has_key(b@, pk.1) {
                        let i = choose|i: int| 0 <= i < b@.len() && (#[trigger] b@[i]).0 == pk.1;
                        assert(b@.contains(b@[i]));
                        assert(entry_up_to(init_s, fini_s, b@[i], p as int, c as int));
                        if exists|k: int|
                            0 <= k < fini_s.len() && plane_of(#[trigger] fini_s[k]) == p as int
                                && low_of(fini_s[k]) == b@[i].0 && b@[i].1 == k + 0x8000 {
                            let k = choose|k: int|
                                0 <= k < fini_s.len() && plane_of(#[trigger] fini_s[k]) == p as int
                                    && low_of(fini_s[k]) == b@[i].0 && b@[i].1 == k + 0x8000;
                            lemma_char_from_parts(fini_s[k], init_s[c as int]);
                            assert(init_s.contains(fini_s[k]));
                            assert(false);
                        } else {
                            let k = choose|k: int|
                                0 <= k < c && plane_of(#[trigger] init_s[k]) == p as int && low_of(
                                    init_s[k],
                                ) == b@[i].0 && b@[i].1 == k;
                            lemma_char_from_parts(init_s[k], init_s[c as int]);
                            assert(false);
                        }
                    }
                }
                let ghost pre_b = b@;
                insert_sorted(&mut b, pk.1, c as u16);
                proof {
                    assert forall|en: (u16, u16)| #[trigger] b@.contains(en) implies entry_up_to(
                        init_s,
                        fini_s,
                        en,
                        p as int,
                        c + 1,
                    ) by {
                        if pre_b.contains(en) {
                            assert(entry_up_to(init_s, fini_s, en, p as int, c as int));
                        } else {
                            assert(en == (pk.1, c as u16));
                            assert(0 <= c < c + 1 && plane_of(init_s[c as int]) == p as int
                                && low_of(init_s[c as int]) == en.0 && en.1 == c);
                        }
                    }
                }
            } else {
                proof {
                    assert forall|en: (u16, u16)| #[trigger] b@.contains(en) implies entry_up_to(
                        init_s,
                        fini_s,
                        en,
                        p as int,
                        c + 1,
                    ) by {
                        assert(entry_up_to(init_s, fini_s, en, p as int, c as int));
                    }
                }
            }
            c = c + 1;
        }
        proof {
            assert forall|i: int| 0 <= i < b@.len() implies entry_for(
                init_s,
                fini_s,
                #[trigger] b@[i],
                p as int,
            ) by {
                assert(b@.contains(b@[i]));
                assert(entry_up_to(init_s, fini_s, b@[i], p as int, init_s.len() as int));
            }
        }
        b
    }
}

/// A table assembled from distinct, disjoint alphabets and full plane
/// buckets is well-formed.
proof fn lemma_compiled_wf(t: &Table)
    requires
        1 <= t.bits <= 15,
        t.init@.len() == pow2(t.bits as nat),
        t.fini@.len() == t.spec_fin_size(),
        t.planes@.len() == 17,
        t.init@.len() <= 0x8000,
        t.fini@.len() < 0x8000,
        forall|q: int| 0 <= q < 17 ==> bucket_full(t.init@, t.fini@, #[trigger] t.planes@[q]@, q),
    ensures
        t.wf(),
{
    let init = t.init@;
    let fini = t.fini@;
    assert forall|q: int| 0 <= q < 17 implies bucket_sorted(#[trigger] t.bucket(q)) by {
        assert(bucket_full(init, fini, t.planes@[q]@, q));
    }
    assert forall|c: int| 0 <= c < init.len() implies t.spec_decode(#[trigger] init[c]) == Some(
        (c as u32, false),
    ) by {
        let ch = init[c];
        lemma_plane_in_range(ch);
        let q = plane_of(ch);
        assert(bucket_full(init, fini, t.planes@[q]@, q));
        assert(t.bucket(q).contains((low_of(ch) as u16, c as u16)));
        lemma_find_contained(t.bucket(q), low_of(ch) as u16, c as u16);
        assert(t.spec_lookup(ch) == Some(c as u16));
        assert((c as u16) as int % 0x8000 == c);
    }
    assert forall|c: int| 0 <= c < fini.len() implies t.spec_decode(#[trigger] fini[c]) == Some(
        (c as u32, true),
    ) by {
        let ch = fini[c];
        lemma_plane_in_range(ch);
        let q = plane_of(ch);
        assert(bucket_full(init, fini, t.planes@[q]@, q));
        assert(t.bucket(q).contains((low_of(ch) as u16, (c + 0x8000) as u16)));
        lemma_find_contained(t.bucket(q), low_of(ch) as u16, (c + 0x8000) as u16);
        assert(t.spec_lookup(ch) == Some((c + 0x8000) as u16));
        assert(((c + 0x8000) as u16) as int % 0x8000 == c) by {
            vstd::arithmetic::div_mod::lemma_mod_add_multiples_vanish(c, 0x8000);
            vstd::arithmetic::div_mod::lemma_small_mod(c as nat, 0x8000);
        }
    }
    assert forall|ch: char| #[trigger] t.spec_decode(ch) is Some implies ({
        let (c, f) = t.spec_decode(ch).unwrap();
        if f {
            c < fini.len() && fini[c as int] == ch
        } else {
            c < init.len() && init[c as int] == ch
        }
    }) by {
        lemma_plane_in_range(ch);
        let q = plane_of(ch);
        let key = low_of(ch) as u16;
        let b = t.bucket(q);
        assert(bucket_full(init, fini, t.planes@[q]@, q));
        assert(has_key(b, key));
        let j = choose|i: int| 0 <= i < b.len() && (#[trigger] b[i]).0 == key;
        assert(t.spec_lookup(ch) == Some(b[j].1));
        let w = b[j].1;
        assert(entry_for(init, fini, b[j], q));
        if exists|k: int|
            0 <= k < fini.len() && plane_of(#[trigger] fini[k]) == q && low_of(fini[k]) == b[j].0
                && b[j].1 == k + 0x8000 {
            let k = choose|k: int|
                0 <= k < fini.len() && plane_of(#[trigger] fini[k]) == q && low_of(fini[k])
                    == b[j].0 && b[j].1 == k + 0x8000;
            lemma_char_from_parts(fini[k], ch);
            assert(w as int % 0x8000 == k) by {
                vstd::arithmetic::div_mod::lemma_mod_add_multiples_vanish(k, 0x8000);
                vstd::arithmetic::div_mod::lemma_small_mod(k as nat, 0x8000);
            }
        } else {
            let k = choose|k: int|
                0 <= k < init.len() && plane_of(#[trigger] init[k]) == q && low_of(init[k])
                    == b[j].0 && b[j].1 == k;
            lemma_char_from_parts(init[k], ch);
            assert(w as int % 0x8000 == k) by {
                vstd::arithmetic::div_mod::lemma_small_mod(k as nat, 0x8000);
            }
        }
    }
}

/// Every character lies in one of the 17 Unicode planes.
proof fn lemma_plane_in_range(ch: char)
    ensures
        0 <= plane_of(ch) < 17,
        0 <= low_of(ch) < 0x10000,
        (low_of(ch) as u16) as int == low_of(ch),
{
    vstd::utf8::char_is_scalar(ch);
    assert((ch as u32) <= 0x10FFFF);
    vstd::arithmetic::div_mod::lemma_mod_bound((ch as u32) as int, 0x10000);
}

impl Table {
    /// Compile alphabets that are already exact: distinct, disjoint, and of
    /// the right lengths for the given code width.
    pub(crate) fn compile_exact(bits: u32, init_block: Vec<char>, fini_block: Vec<char>) -> (t:
        Table)
        requires
            1 <= bits <= 15,
            distinct(init_block@),
            distinct(fini_block@),
            forall|i: int|
                0 <= i < fini_block@.len() ==> !init_block@.contains(#[trigger] fini_block@[i]),
            init_block@.len() == pow2(bits as nat),
            fini_block@.len() == if bits > 8 {
                pow2((bits - 8) as nat)
            } else {
                0
            },
        ensures
            t.wf(),
            t.bits == bits,
            t.init@ == init_block@,
            t.fini@ == fini_block@,
    {
        let ghost ib = init_block@;
        let ghost fb = fini_block@;
        let size: usize = 1usize << bits;
        proof {
            vstd::bits::lemma_usize_pow2_no_overflow(bits as nat);
            vstd::bits::lemma_usize_shl_is_mul(1usize, bits as usize);
            lemma_pow2_is_pow2(bits as nat);
            lemma2_to64();
            assert(2 <= size <= 0x8000) by {
                if bits > 1 {
                    lemma_pow2_strictly_increases(1, bits as nat);
                }
                if bits < 15 {
                    lemma_pow2_strictly_increases(bits as nat, 15);
                }
            }
            if bits > 8 {
                lemma_pow2_adds((bits - 8) as nat, 8);
                assert(size == pow2((bits - 8) as nat) * 256);
                vstd::arithmetic::div_mod::lemma_div_by_multiple(
                    pow2((bits - 8) as nat) as int,
                    256,
                );
                lemma_pow2_strictly_increases(8, bits as nat);
            } else if bits < 8 {
                lemma_pow2_strictly_increases(bits as nat, 8);
            }
            lemma_dedup_first_id(ib);
            lemma_dedup_excl_id(fb, ib);
        }
        match Self::compile(size, init_block, fini_block) {
            Ok(t) => {
                proof {
                    assert(t.bits == bits) by {
                        if t.bits < bits {
                            lemma_pow2_strictly_increases(t.bits as nat, bits as nat);
                        }
                        if t.bits > bits {
                            lemma_pow2_strictly_increases(bits as nat, t.bits as nat);
                        }
                    }
                }
                t
            },
            Err(e) => {
                proof {
                    assert(false);
                }
                vstd::pervasive::unreached()
            },
        }
    }

    /// A scheme over the first code points, one table per code width; every
    /// width in `[1, 15]` can be exercised with it.
    pub fn with(bits: u32) -> (r: Table)
        requires
            1 <= bits <= 15,
        ensures
            r.wf(),
            r.bits == bits,
    {
        let fin_len: usize = if bits > 8 {
            1usize << (bits - 8)
        } else {
            0
        };
        let size: usize = 1usize << bits;
        proof {
            vstd::bits::lemma_usize_pow2_no_overflow(bits as nat);
            vstd::bits::lemma_usize_shl_is_mul(1usize, bits as usize);
            if bits > 8 {
                vstd::bits::lemma_usize_pow2_no_overflow((bits - 8) as nat);
                vstd::bits::lemma_usize_shl_is_mul(1usize, (bits - 8) as usize);
                lemma_pow2_strictly_increases((bits - 8) as nat, 8);
            }
            lemma2_to64();
            assert(size <= 0x8000) by {
                if bits < 15 {
                    lemma_pow2_strictly_increases(bits as nat, 15);
                }
            }
        }
        let mut fini_block: Vec<char> = Vec::new();
        let mut i: usize = 0;
        while i < fin_len
            invariant
                i <= fin_len,
                fin_len <= 0x100,
                fini_block@.len() == i,
                forall|j: int| 0 <= j < i ==> (#[trigger] fini_block@[j]) as u32 == j,
            decreases fin_len - i,
        {
            fini_block.push(u32_to_char(i as u32));
            i = i + 1;
        }
        let mut init_block: Vec<char> = Vec::new();
        let mut i: usize = 0;
        while i < size
            invariant
                i <= size,
                size <= 0x8000,
                fin_len <= 0x100,
                init_block@.len() == i,
                forall|j: int| 0 <= j < i ==> (#[trigger] init_block@[j]) as u32 == fin_len + j,
            decreases size - i,
        {
            init_block.push(u32_to_char((fin_len + i) as u32));
            i = i + 1;
        }
        proof {
            assert(forall|i: int, j: int|
                0 <= i < j < init_block@.len() ==> init_block@[i] != init_block@[j]);
            assert(forall|i: int, j: int|
                0 <= i < j < fini_block@.len() ==> fini_block@[i] != fini_block@[j]);
            assert forall|i: int|
                0 <= i < fini_block@.len() implies !init_block@.contains(
                #[trigger] fini_block@[i],
            ) by {
                if init_block@.contains(fini_block@[i]) {
                    let j = choose|j: int|
                        0 <= j < init_block@.len() && init_block@[j] == fini_block@[i];
                }
            }
        }
        Self::compile_exact(bits, init_block, fini_block)
    }
}

/// Every power of two is recognized as one.
proof fn lemma_pow2_is_pow2(e: nat)
    ensures
        is_pow2(pow2(e) as int),
{
    vstd::arithmetic::power::lemma_pow_positive(2, e);
    assert(vstd::arithmetic::power::pow(2, e) == pow2(e) as int);
    assert(vstd::arithmetic::power2::is_pow2_exists(pow2(e) as int));
    vstd::arithmetic::power2::is_pow2_equiv(pow2(e) as int);
}

/// Relies on `char::from_u32`: every value below the surrogate range is a
/// valid code point.
#[verifier::external_body]
pub(crate) fn u32_to_char(u: u32) -> (r: char)
    requires
        u < 0xD800,
    ensures
        r as u32 == u,
{
    match char::from_u32(u) {
        Some(c) => c,
        None => ' ',
    }
}

/// Like `entry_for`, but only main-alphabet symbols below `c` count.
pub open spec fn entry_up_to(
    init: Seq<char>,
    fini: Seq<char>,
    e: (u16, u16),
    q: int,
    c: int,
) -> bool {
    ||| (exists|k: int|
        0 <= k < fini.len() && plane_of(#[trigger] fini[k]) == q && low_of(fini[k]) == e.0 && e.1
            == k + 0x8000)
    ||| (exists|k: int|
        0 <= k < c && plane_of(#[trigger] init[k]) == q && low_of(init[k]) == e.0 && e.1 == k)
}

} // verus!
