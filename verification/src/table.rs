use vstd::prelude::*;

verus! {

use vstd::arithmetic::power2::pow2;
use crate::encode::Encode;
use crate::encode::enc_out;
use crate::decode::Decode;
use crate::decode::dec_out;
use crate::decode::first_err_of;

/// An immutable encoding scheme: a code width, the ordered alphabets, and a
/// plane-partitioned decode index that maps a character back to its code.
pub struct Table {
    /// Number of bits one `init` symbol encodes.
    pub bits: u32,
    /// Finalization alphabet: used for the single final partial group when
    /// `bits > 8`; empty otherwise. Position is the code.
    pub fini: Vec<char>,
    /// Main alphabet, length exactly `2^bits`. Position is the code.
    pub init: Vec<char>,
    /// One bucket per Unicode plane, each an ascending sequence of
    /// (plane-local code point, codeword) pairs, where the codeword packs a
    /// 15-bit code with the finalization flag in bit 15.
    pub planes: Vec<Vec<(u16, u16)>>,
}

/// Unicode plane of a character: its code point divided by 2^16.
pub open spec fn plane_of(ch: char) -> int {
    (ch as u32) as int / 0x10000
}

/// Plane-local part of a character: its code point modulo 2^16.
pub open spec fn low_of(ch: char) -> int {
    (ch as u32) as int % 0x10000
}

/// A decode bucket is sorted strictly ascending by plane-local code point.
pub open spec fn bucket_sorted(b: Seq<(u16, u16)>) -> bool {
    forall|i: int, j: int| 0 <= i < j < b.len() ==> (#[trigger] b[i]).0 < (#[trigger] b[j]).0
}

/// Whether some entry of a bucket carries the given plane-local code point.
pub open spec fn has_key(b: Seq<(u16, u16)>, k: u16) -> bool {
    exists|i: int| 0 <= i < b.len() && (#[trigger] b[i]).0 == k
}

/// The codeword stored under a plane-local code point, if any.
pub open spec fn find_in(b: Seq<(u16, u16)>, k: u16) -> Option<u16> {
    if has_key(b, k) {
        let i = choose|i: int| 0 <= i < b.len() && (#[trigger] b[i]).0 == k;
        Some(b[i].1)
    } else {
        None
    }
}

impl Table {
    /// The decode bucket for a plane.
    pub open spec fn bucket(self, p: int) -> Seq<(u16, u16)> {
        self.planes@[p]@
    }

    /// The codeword the index stores for a character, if any.
    pub open spec fn spec_lookup(self, ch: char) -> Option<u16> {
        find_in(self.bucket(plane_of(ch)), low_of(ch) as u16)
    }

    /// What decoding a single character yields: its code and whether it
    /// belongs to the finalization alphabet.
    pub open spec fn spec_decode(self, ch: char) -> Option<(u32, bool)> {
        match self.spec_lookup(ch) {
            Some(w) => Some(((w as int % 0x8000) as u32, w as int >= 0x8000)),
            None => None,
        }
    }

    /// Size of the finalization alphabet: `2^(bits-8)` when `bits > 8`, else 0.
    pub open spec fn spec_fin_size(self) -> nat {
        if self.bits > 8 {
            pow2((self.bits - 8) as nat)
        } else {
            0
        }
    }

    /// Well-formedness: alphabet lengths match the code width, the decode
    /// index is sorted, and it is in exact correspondence with the alphabets.
    pub open spec fn wf(self) -> bool {
        &&& 1 <= self.bits <= 15
        &&& self.init@.len() == pow2(self.bits as nat)
        &&& self.fini@.len() == self.spec_fin_size()
        &&& self.planes@.len() == 17
        &&& (forall|p: int| 0 <= p < 17 ==> bucket_sorted(#[trigger] self.bucket(p)))
        &&& (forall|c: int|
            0 <= c < self.init@.len() ==> self.spec_decode(#[trigger] self.init@[c])
                == Some((c as u32, false)))
        &&& (forall|c: int|
            0 <= c < self.fini@.len() ==> self.spec_decode(#[trigger] self.fini@[c])
                == Some((c as u32, true)))
        &&& (forall|ch: char|
            match #[trigger] self.spec_decode(ch) {
                Some((c, f)) => if f {
                    c < self.fini@.len() && self.fini@[c as int] == ch
                } else {
                    c < self.init@.len() && self.init@[c as int] == ch
                },
                None => true,
            })
    }

    /// Binary search of one decode bucket by plane-local code point.
    fn find_key(b: &Vec<(u16, u16)>, key: u16) -> (r: Option<u16>)
        requires
            bucket_sorted(b@),
        ensures
            r == find_in(b@, key),
    {
        let mut lo: usize = 0;
        let mut hi: usize = b.len();
        while lo < hi
            invariant
                lo <= hi <= b@.len(),
                bucket_sorted(b@),
                forall|i: int| 0 <= i < lo ==> (#[trigger] b@[i]).0 < key,
                forall|i: int| hi <= i < b@.len() ==> key < (#[trigger] b@[i]).0,
            decreases hi - lo,
        {
            let mid = lo + (hi - lo) / 2;
            let e = b[mid];
            if e.0 == key {
                proof {
                    assert(b@[mid as int].0 == key);
                    let j = choose|i: int| 0 <= i < b@.len() && (#[trigger] b@[i]).0 == key;
                    assert(j == mid);
                }
                return Some(e.1);
            } else if e.0 < key {
                lo = mid + 1;
            } else {
                hi = mid;
            }
        }
        proof {
            if has_key(b@, key) {
                let j = choose|i: int| 0 <= i < b@.len() && (#[trigger] b@[i]).0 == key;
                assert(false);
            }
        }
        None
    }

    /// Decode one character to its code and finalization flag, or `None` for
    /// a character outside the table's alphabets.
    pub fn decode(&self, ch: char) -> (r: Option<(u32, bool)>)
        requires
            self.wf(),
        ensures
            r == self.spec_decode(ch),
    {
        let cu = ch as u32;
        proof {
            vstd::utf8::char_is_scalar(ch);
            vstd::bits::lemma_u32_shr_is_div(cu, 16);
            vstd::bits::lemma_u32_low_bits_mask_is_mod(cu, 16);
            vstd::bits::lemma_low_bits_mask_values();
            vstd::arithmetic::power2::lemma2_to64();
        }
        let p = (cu >> 16) as usize;
        assert(p < 17 && p == plane_of(ch));
        let key = (cu & 0xFFFF) as u16;
        assert(key == low_of(ch) as u16);
        let bucket = &self.planes[p];
        match Self::find_key(bucket, key) {
            Some(w) => {
                proof {
                    vstd::bits::lemma_u16_shr_is_div(w, 15);
                    vstd::bits::lemma_u16_low_bits_mask_is_mod(w, 15);
                    vstd::bits::lemma_low_bits_mask_values();
                }
                Some(((w & 0x7FFF) as u32, (w >> 15) != 0))
            },
            None => None,
        }
    }

    /// A streaming encoder over the given bytes.
    pub fn encode_iter<'a>(&'a self, input: &'a Vec<u8>) -> (r: Encode<'a>)
        requires
            self.wf(),
        ensures
            r.wf(),
            r.spec_table() == *self,
            r.stream() == enc_out(*self, input@, 0, 0),
    {
        Encode::new(self, input)
    }

    /// A streaming decoder over the given characters. A character outside
    /// the table's alphabets comes out as an `Err` item carrying it.
    pub fn decode_iter<'a>(&'a self, input: &'a Vec<char>) -> (r: Decode<'a>)
        requires
            self.wf(),
        ensures
            r.wf(),
            r.spec_table() == *self,
            r.stream() == dec_out(*self, input@, 0, 0),
    {
        Decode::new(self, input)
    }

    /// Encode a whole buffer into a string.
    pub fn encode_str(&self, input: &Vec<u8>) -> (r: String)
        requires
            self.wf(),
        ensures
            r@ == enc_out(*self, input@, 0, 0),
    {
        let ghost goal = enc_out(*self, input@, 0, 0);
        let mut it = Encode::new(self, input);
        let mut out = String::new();
        loop
            invariant
                it.wf(),
                out@ + it.stream() == goal,
            ensures
                out@ == goal,
            decreases it.stream().len(),
        {
            let ghost before = it.stream();
            match it.next() {
                Some(c) => {
                    proof {
                        assert(out@.push(c) + before.drop_first() =~= out@ + before);
                    }
                    push_char(&mut out, c);
                },
                None => {
                    proof {
                        assert(out@ + before =~= out@);
                    }
                    break;
                },
            }
        }
        out
    }

    /// Decode a whole buffer into bytes, or return the first character that
    /// is not in the table's alphabets.
    pub fn decode_vec(&self, input: &Vec<char>) -> (r: Result<Vec<u8>, char>)
        requires
            self.wf(),
        ensures
            ({
                let out = dec_out(*self, input@, 0, 0);
                match r {
                    Ok(bytes) => out == bytes@.map_values(|b: u8| Ok::<u8, char>(b)),
                    Err(ch) => first_err_of(out) == Some(ch),
                }
            }),
    {
        let ghost out = dec_out(*self, input@, 0, 0);
        let mut it = Decode::new(self, input);
        let mut bytes: Vec<u8> = Vec::new();
        let mut err: Option<char> = None;
        loop
            invariant_except_break
                err is None,
                bytes@.map_values(|b: u8| Ok::<u8, char>(b)) + it.stream() == out,
            invariant
                it.wf(),
            ensures
                err is None ==> bytes@.map_values(|b: u8| Ok::<u8, char>(b)) == out,
                err is Some ==> first_err_of(out) == err,
            decreases it.stream().len(),
        {
            let ghost before = it.stream();
            let ghost done = bytes@.map_values(|b: u8| Ok::<u8, char>(b));
            match it.next() {
                Some(item) => match item {
                    Ok(b) => {
                        proof {
                            assert(before[0] == Ok::<u8, char>(b));
                            assert(bytes@.push(b).map_values(|x: u8| Ok::<u8, char>(x))
                                =~= done.push(Ok::<u8, char>(b)));
                            assert(done.push(Ok::<u8, char>(b)) + before.drop_first() =~= done
                                + before);
                        }
                        bytes.push(b);
                    },
                    Err(ch) => {
                        proof {
                            assert(before[0] == Err::<u8, char>(ch));
                            assert(forall|i: int|
                                0 <= i < done.len() ==> (#[trigger] done[i]) == Ok::<u8, char>(
                                    bytes@[i],
                                ));
                            crate::decode::lemma_first_err_prefix(done, before);
                            assert(first_err_of(before) == Some(ch));
                            assert(first_err_of(out) == Some(ch));
                        }
                        err = Some(ch);
                        break;
                    },
                },
                None => {
                    proof {
                        assert(done + before =~= done);
                    }
                    break;
                },
            }
        }
        match err {
            Some(c) => Err(c),
            None => Ok(bytes),
        }
    }
}

/// Bijection between codes and symbols: decoding the symbol at any code of
/// either alphabet returns exactly that code and the alphabet's role.
pub proof fn lemma_code_bijection(t: &Table)
    requires
        t.wf(),
    ensures
        forall|c: int|
            0 <= c < t.init@.len() ==> t.spec_decode(#[trigger] t.init@[c]) == Some(
                (c as u32, false),
            ),
        forall|c: int|
            0 <= c < t.fini@.len() ==> t.spec_decode(#[trigger] t.fini@[c]) == Some(
                (c as u32, true),
            ),
{
}

/// Boundary: the alphabets hold exactly `2^bits` and `2^(bits-8)` (or zero)
/// symbols, so any index at or beyond those lengths is absent.
pub proof fn lemma_boundary(t: &Table)
    requires
        t.wf(),
    ensures
        t.init@.len() == pow2(t.bits as nat),
        t.fini@.len() == t.spec_fin_size(),
{
}

/// Rejection: a character in neither alphabet decodes to nothing.
pub proof fn lemma_reject(t: &Table, ch: char)
    requires
        t.wf(),
        !t.init@.contains(ch),
        !t.fini@.contains(ch),
    ensures
        t.spec_decode(ch) is None,
{
    if t.spec_decode(ch) is Some {
        let (c, f) = t.spec_decode(ch).unwrap();
        if f {
            assert(t.fini@[c as int] == ch);
        } else {
            assert(t.init@[c as int] == ch);
        }
    }
}

/// Relies on `String::push`: appends the character to the end of the string.
#[verifier::external_body]
fn push_char(s: &mut String, c: char)
    ensures
        final(s)@ == old(s)@.push(c),
{
    s.push(c);
}

} // verus!
