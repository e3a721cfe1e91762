use vstd::prelude::*;

verus! {

use vstd::arithmetic::power2::pow2;
use vstd::arithmetic::power2::lemma_pow2_adds;
use vstd::arithmetic::power2::lemma_pow2_pos;
use vstd::arithmetic::power2::lemma2_to64;
use vstd::arithmetic::div_mod::lemma_div_plus_one;
use vstd::arithmetic::div_mod::lemma_basic_div;
use crate::table::Table;
use crate::pack::lemma_shl1;
use crate::pack::lemma_split_at;

/// The character stream that encoding produces from a pending accumulator of
/// `len` bits holding `acc`, followed by the bytes of `bytes`: one `init`
/// character per full `bits`-wide group, most significant bits first, and for
/// a non-empty final partial group one character from `init` (when more than
/// `bits - 8` bits remain) or from `fini` (otherwise), padded with zero bits.
pub open spec fn enc_out(t: Table, bytes: Seq<u8>, acc: nat, len: nat) -> Seq<char>
    decreases 9 * bytes.len() + len,
{
    let bits = t.bits as int;
    if bits < 1 {
        Seq::empty()
    } else if len >= bits {
        let s = (len - bits) as nat;
        let h = acc / pow2(s);
        seq![t.init@[h as int]] + enc_out(t, bytes, (acc - h * pow2(s)) as nat, s)
    } else if bytes.len() > 0 {
        enc_out(t, bytes.drop_first(), (acc * 256 + bytes.first()) as nat, (len + 8) as nat)
    } else if len == 0 {
        Seq::empty()
    } else if len > bits - 8 {
        seq![t.init@[(acc * pow2((bits - len) as nat)) as int]]
    } else {
        seq![t.fini@[(acc * pow2((bits - 8 - len) as nat)) as int]]
    }
}

/// Number of characters encoding produces for `nbytes` bytes plus `len`
/// pending bits: the total bit count divided by `bits`, rounded up.
pub open spec fn enc_count(bits: int, nbytes: int, len: int) -> int {
    (8 * nbytes + len + bits - 1) / bits
}

/// The length of the encoded stream is exactly `enc_count`: the bound an
/// encoder reports is the true remaining count, and it is 0 at exhaustion.
pub proof fn lemma_enc_len(t: Table, bytes: Seq<u8>, acc: nat, len: nat)
    requires
        1 <= t.bits,
    ensures
        enc_out(t, bytes, acc, len).len() == enc_count(t.bits as int, bytes.len() as int, len as int),
    decreases 9 * bytes.len() + len,
{
    let bits = t.bits as int;
    if len >= bits {
        let s = (len - bits) as nat;
        let h = acc / pow2(s);
        lemma_enc_len(t, bytes, (acc - h * pow2(s)) as nat, s);
        lemma_div_plus_one(8 * bytes.len() + len - 1, bits);
    } else if bytes.len() > 0 {
        lemma_enc_len(t, bytes.drop_first(), (acc * 256 + bytes.first()) as nat, (len + 8) as nat);
    } else if len == 0 {
        lemma_basic_div(bits - 1, bits);
    } else {
        lemma_div_plus_one(len - 1, bits);
        lemma_basic_div(len - 1, bits);
    }
}

/// Streaming encoder: a pull-driven state machine over a byte source, with
/// an accumulator of at most 32 bits. Copying one duplicates its state, the
/// one way to restart a stream part-way.
#[derive(Clone, Copy)]
pub struct Encode<'a> {
    buf: u32,
    len: u32,
    table: &'a Table,
    input: &'a Vec<u8>,
    pos: usize,
}

impl<'a> Encode<'a> {
    /// State invariant: the accumulator holds exactly `len` pending bits.
    pub closed spec fn wf(self) -> bool {
        &&& self.table.wf()
        &&& self.pos <= self.input@.len()
        &&& self.len <= self.table.bits + 7
        &&& (self.buf as nat) < pow2(self.len as nat)
    }

    /// Bytes not yet pulled from the source.
    pub closed spec fn remaining_bytes(self) -> Seq<u8> {
        self.input@.skip(self.pos as int)
    }

    /// The characters this encoder will still produce.
    pub closed spec fn stream(self) -> Seq<char> {
        enc_out(*self.table, self.remaining_bytes(), self.buf as nat, self.len as nat)
    }

    /// The table this encoder reads.
    pub closed spec fn spec_table(self) -> Table {
        *self.table
    }

    pub fn new(table: &'a Table, input: &'a Vec<u8>) -> (r: Encode<'a>)
        requires
            table.wf(),
        ensures
            r.wf(),
            r.spec_table() == *table,
            r.stream() == enc_out(*table, input@, 0, 0),
    {
        proof {
            lemma_pow2_pos(0);
        }
        let r = Encode { buf: 0, len: 0, table, input, pos: 0 };
        assert(r.remaining_bytes() =~= input@);
        r
    }

    /// Produce the next character of the encoding, or `None` once the source
    /// is exhausted and no bits are pending. Returning `None` leaves the
    /// state unchanged, so every later pull also returns `None`.
    pub fn next(&mut self) -> (r: Option<char>)
        requires
            old(self).wf(),
        ensures
            final(self).wf(),
            final(self).spec_table() == old(self).spec_table(),
            match r {
                Some(c) => old(self).stream().len() > 0 && c == old(self).stream()[0]
                    && final(self).stream() == old(self).stream().drop_first(),
                None => old(self).stream().len() == 0 && *final(self) == *old(self),
            },
    {
        let bits = self.table.bits;
        while self.len < bits
            invariant
                self.wf(),
                bits == self.table.bits,
                self.table == old(self).table,
                self.input == old(self).input,
                self.stream() == old(self).stream(),
                self.len == 0 ==> *self == *old(self),
            decreases self.input@.len() - self.pos,
        {
            if self.pos < self.input.len() {
                let byte = self.input[self.pos];
                proof {
                    let acc = self.buf as nat;
                    let l = self.len as nat;
                    lemma_pow2_adds(l, 8);
                    lemma2_to64();
                    assert(acc * pow2(8) + (byte as nat) < pow2(l + 8)) by (nonlinear_arith)
                        requires
                            acc < pow2(l),
                            (byte as nat) < 256,
                            pow2(8) == 256,
                            pow2(l + 8) == pow2(l) * pow2(8),
                    ;
                    vstd::bits::lemma_u32_pow2_no_overflow(l + 8);
                    vstd::bits::lemma_u32_shl_is_mul(self.buf, 8);
                    assert(self.remaining_bytes().drop_first() =~= self.input@.skip(
                        self.pos as int + 1,
                    ));
                }
                self.buf = (self.buf << 8u32) + byte as u32;
                self.len = self.len + 8;
                self.pos = self.pos + 1;
            } else if self.len > 0 {
                assert(self.remaining_bytes().len() == 0);
                let fin_bits = if bits >= 8 {
                    bits - 8
                } else {
                    0
                };
                if self.len > fin_bits {
                    // Final partial group, emitted at full width from `init`.
                    let code = self.buf << (bits - self.len);
                    proof {
                        let l = self.len as nat;
                        let w = (bits - self.len) as nat;
                        lemma_pow2_adds(l, w);
                        lemma_pow2_pos(w);
                        assert((self.buf as nat) * pow2(w) < pow2(l + w)) by (nonlinear_arith)
                            requires
                                (self.buf as nat) < pow2(l),
                                pow2(l + w) == pow2(l) * pow2(w),
                                pow2(w) > 0,
                        ;
                        vstd::bits::lemma_u32_pow2_no_overflow(l + w);
                        vstd::bits::lemma_u32_shl_is_mul(self.buf, (bits - self.len) as u32);
                    }
                    assert((code as nat) < pow2(bits as nat));
                    self.len = 0;
                    self.buf = 0;
                    proof {
                        lemma_pow2_pos(0);
                    }
                    return Some(self.table.init[code as usize]);
                } else {
                    // Final partial group, emitted at the narrow width from `fini`.
                    let code = self.buf << (fin_bits - self.len);
                    proof {
                        let l = self.len as nat;
                        let w = (fin_bits - self.len) as nat;
                        lemma_pow2_adds(l, w);
                        lemma_pow2_pos(w);
                        assert((self.buf as nat) * pow2(w) < pow2(l + w)) by (nonlinear_arith)
                            requires
                                (self.buf as nat) < pow2(l),
                                pow2(l + w) == pow2(l) * pow2(w),
                                pow2(w) > 0,
                        ;
                        vstd::bits::lemma_u32_pow2_no_overflow(l + w);
                        vstd::bits::lemma_u32_shl_is_mul(self.buf, (fin_bits - self.len) as u32);
                    }
                    assert((code as nat) < pow2((bits - 8) as nat));
                    self.len = 0;
                    self.buf = 0;
                    proof {
                        lemma_pow2_pos(0);
                    }
                    return Some(self.table.fini[code as usize]);
                }
            } else {
                return None;
            }
        }
        // A full group is pending: emit its top `bits` bits from `init`.
        let s = self.len - bits;
        let code = self.buf >> s;
        let ghost t = *self.table;
        let ghost rem = self.remaining_bytes();
        let ghost acc = self.buf as nat;
        let ghost sn = s as nat;
        let ghost h = acc / pow2(sn);
        let ghost rest = enc_out(t, rem, (acc - h * pow2(sn)) as nat, sn);
        proof {
            lemma_split_at(acc, sn, bits as nat);
            lemma_pow2_pos(sn);
            vstd::bits::lemma_u32_shr_is_div(self.buf, s);
            assert(code == h);
            vstd::arithmetic::mul::lemma_mul_is_commutative(h as int, pow2(sn) as int);
            assert(h * pow2(sn) <= acc);
            vstd::bits::lemma_u32_shl_is_mul(code, s);
            assert(self.stream() == seq![t.init@[h as int]] + rest);
            assert(self.stream()[0] == t.init@[h as int]);
            assert(self.stream().drop_first() =~= rest);
        }
        assert((code as nat) < pow2(bits as nat));
        self.buf = self.buf - (code << s);
        self.len = s;
        assert(self.buf as nat == acc - h * pow2(sn));
        assert(self.stream() == rest);
        Some(self.table.init[code as usize])
    }

    /// Exact bounds on the number of characters still to come, clamped to
    /// `usize`: both bounds equal the true remaining count.
    pub fn size_hint(&self) -> (r: (usize, Option<usize>))
        requires
            self.wf(),
        ensures
            ({
                let n = self.stream().len();
                if n <= usize::MAX {
                    r == (n as usize, Some(n as usize))
                } else {
                    r == (usize::MAX, None::<usize>)
                }
            }),
    {
        proof {
            lemma_enc_len(*self.table, self.remaining_bytes(), self.buf as nat, self.len as nat);
        }
        let bits = self.table.bits;
        let rem = (self.input.len() - self.pos) as u128;
        let q = (rem * 8 + self.len as u128 + (bits - 1) as u128) / bits as u128;
        if q <= usize::MAX as u128 {
            (q as usize, Some(q as usize))
        } else {
            (usize::MAX, None)
        }
    }
}

} // verus!
