use vstd::prelude::*;

verus! {

use vstd::arithmetic::power2::pow2;
use vstd::arithmetic::power2::lemma_pow2_adds;
use vstd::arithmetic::power2::lemma_pow2_pos;
use vstd::arithmetic::div_mod::lemma_div_plus_one;
use vstd::arithmetic::div_mod::lemma_basic_div;
use vstd::arithmetic::div_mod::lemma_div_is_ordered;
use crate::table::Table;
use crate::pack::lemma_split_at;

/// The width one decoded character contributes: `bits` for a main-alphabet
/// character, `bits - 8` (clamped at zero) for a finalization character.
pub open spec fn dec_width(t: Table, fin: bool) -> nat {
    if fin {
        if t.bits >= 8 {
            (t.bits - 8) as nat
        } else {
            0
        }
    } else {
        t.bits as nat
    }
}

/// The item stream that decoding produces from a pending accumulator of
/// `len` bits holding `acc`, followed by the characters of `chars`: one
/// `Ok` byte per 8 accumulated bits, one `Err` item per character outside
/// the table's alphabets, and any final group of fewer than 8 bits dropped.
pub open spec fn dec_out(t: Table, chars: Seq<char>, acc: nat, len: nat) -> Seq<Result<u8, char>>
    decreases chars.len(), len,
{
    if len >= 8 {
        let s = (len - 8) as nat;
        let h = acc / pow2(s);
        seq![Ok::<u8, char>(h as u8)] + dec_out(t, chars, (acc - h * pow2(s)) as nat, s)
    } else if chars.len() == 0 {
        Seq::empty()
    } else {
        match t.spec_decode(chars.first()) {
            None => seq![Err::<u8, char>(chars.first())] + dec_out(t, chars.drop_first(), acc, len),
            Some((code, fin)) => {
                let w = dec_width(t, fin);
                dec_out(t, chars.drop_first(), (acc * pow2(w) + code) as nat, (len + w) as nat)
            },
        }
    }
}

/// Streaming decoder: a pull-driven state machine over a character source,
/// with an accumulator of at most 32 bits. Copying one duplicates its state,
/// the one way to restart a stream part-way.
#[derive(Clone, Copy)]
pub struct Decode<'a> {
    buf: u32,
    len: u32,
    table: &'a Table,
    input: &'a Vec<char>,
    pos: usize,
}

impl<'a> Decode<'a> {
    /// State invariant: the accumulator holds exactly `len` pending bits.
    pub closed spec fn wf(self) -> bool {
        &&& self.table.wf()
        &&& self.pos <= self.input@.len()
        &&& self.len <= self.table.bits + 7
        &&& (self.buf as nat) < pow2(self.len as nat)
    }

    /// Characters not yet pulled from the source.
    pub closed spec fn remaining_chars(self) -> Seq<char> {
        self.input@.skip(self.pos as int)
    }

    /// The items this decoder will still produce.
    pub closed spec fn stream(self) -> Seq<Result<u8, char>> {
        dec_out(*self.table, self.remaining_chars(), self.buf as nat, self.len as nat)
    }

    /// The table this decoder reads.
    pub closed spec fn spec_table(self) -> Table {
        *self.table
    }

    /// The value of the pending accumulator bits.
    pub closed spec fn pending(self) -> nat {
        self.buf as nat
    }

    pub fn new(table: &'a Table, input: &'a Vec<char>) -> (r: Decode<'a>)
        requires
            table.wf(),
        ensures
            r.wf(),
            r.spec_table() == *table,
            r.spec_table().wf(),
            r.remaining_chars() == input@,
            r.pending() == 0,
            r.len_bits() == 0,
            r.stream() == dec_out(*table, input@, 0, 0),
    {
        proof {
            lemma_pow2_pos(0);
        }
        let r = Decode { buf: 0, len: 0, table, input, pos: 0 };
        assert(r.remaining_chars() =~= input@);
        r
    }

    /// Produce the next decoded item: `Ok` with the next byte, `Err` with a
    /// character outside the table's alphabets, or `None` once the source is
    /// exhausted and fewer than 8 bits are pending. After `None`, every
    /// later pull also returns `None`.
    pub fn next(&mut self) -> (r: Option<Result<u8, char>>)
        requires
            old(self).wf(),
        ensures
            final(self).wf(),
            final(self).spec_table() == old(self).spec_table(),
            final(self).spec_table().wf(),
            final(self).stream() == dec_out(
                final(self).spec_table(),
                final(self).remaining_chars(),
                final(self).pending(),
                final(self).len_bits(),
            ),
            match r {
                Some(item) => old(self).stream().len() > 0 && item == old(self).stream()[0]
                    && final(self).stream() == old(self).stream().drop_first(),
                None => old(self).stream().len() == 0 && final(self).stream().len() == 0
                    && final(self).remaining_chars().len() == 0 && final(self).pending() == 0
                    && final(self).len_bits() == 0,
            },
    {
        let bits = self.table.bits;
        while self.len < 8
            invariant
                self.wf(),
                bits == self.table.bits,
                self.table == old(self).table,
                self.input == old(self).input,
                self.stream() == old(self).stream(),
            decreases self.input@.len() - self.pos,
        {
            if self.pos < self.input.len() {
                let ch = self.input[self.pos];
                proof {
                    assert(self.remaining_chars().first() == ch);
                    assert(self.remaining_chars().drop_first() =~= self.input@.skip(
                        self.pos as int + 1,
                    ));
                }
                match self.table.decode(ch) {
                    None => {
                        self.pos = self.pos + 1;
                        return Some(Err(ch));
                    },
                    Some(p) => {
                        let data = p.0;
                        let w = if p.1 {
                            if bits >= 8 {
                                bits - 8
                            } else {
                                0
                            }
                        } else {
                            bits
                        };
                        proof {
                            let acc = self.buf as nat;
                            let l = self.len as nat;
                            let wn = w as nat;
                            assert(wn == dec_width(*self.table, p.1));
                            assert((data as nat) < pow2(wn));
                            lemma_pow2_adds(l, wn);
                            lemma_pow2_pos(wn);
                            assert(acc * pow2(wn) + (data as nat) < pow2(l + wn))
                                by (nonlinear_arith)
                                requires
                                    acc < pow2(l),
                                    (data as nat) < pow2(wn),
                                    pow2(l + wn) == pow2(l) * pow2(wn),
                            ;
                            vstd::bits::lemma_u32_pow2_no_overflow(l + wn);
                            vstd::bits::lemma_u32_shl_is_mul(self.buf, w);
                        }
                        self.pos = self.pos + 1;
                        self.buf = (self.buf << w) + data;
                        self.len = self.len + w;
                    },
                }
            } else {
                assert(self.remaining_chars().len() == 0);
                self.len = 0;
                self.buf = 0;
                proof {
                    lemma_pow2_pos(0);
                }
                return None;
            }
        }
        // A byte is pending: emit the top 8 bits of the accumulator.
        let s = self.len - 8;
        let code = self.buf >> s;
        let ghost t = *self.table;
        let ghost rem = self.remaining_chars();
        let ghost acc = self.buf as nat;
        let ghost sn = s as nat;
        let ghost h = acc / pow2(sn);
        let ghost rest = dec_out(t, rem, (acc - h * pow2(sn)) as nat, sn);
        proof {
            lemma_split_at(acc, sn, 8);
            lemma_pow2_pos(sn);
            vstd::bits::lemma_u32_shr_is_div(self.buf, s);
            assert(code == h);
            vstd::arithmetic::mul::lemma_mul_is_commutative(h as int, pow2(sn) as int);
            assert(h * pow2(sn) <= acc);
            vstd::bits::lemma_u32_shl_is_mul(code, s);
            assert(self.stream() == seq![Ok::<u8, char>(h as u8)] + rest);
            assert(self.stream()[0] == Ok::<u8, char>(h as u8));
            assert(self.stream().drop_first() =~= rest);
        }
        assert((code as nat) < pow2(8));
        self.buf = self.buf - (code << s);
        self.len = s;
        assert(self.buf as nat == acc - h * pow2(sn));
        assert(self.stream() == rest);
        Some(Ok(code as u8))
    }

    /// Bounds on the number of items still to come, clamped to `usize`: the
    /// low bound allows for one narrow finalization character, the high
    /// bound for none.
    pub fn size_hint(&self) -> (r: (usize, Option<usize>))
        requires
            self.wf(),
        ensures
            ({
                let lo = dec_lo(self.spec_table().bits as int, self.remaining_chars().len() as int,
                    self.len_bits() as int);
                let hi = dec_hi(self.spec_table().bits as int, self.remaining_chars().len() as int,
                    self.len_bits() as int);
                &&& r.0 == if lo <= usize::MAX { lo } else { usize::MAX as int }
                &&& r.1 == if hi <= usize::MAX { Some(hi as usize) } else { None::<usize> }
            }),
    {
        let bits = self.table.bits;
        let rem = (self.input.len() - self.pos) as u64 as u128;
        proof {
            assert(1 <= bits <= 15);
            assert((rem as nat) * (bits as nat) <= 0xFFFFFFFFFFFFFFFF * 15) by (nonlinear_arith)
                requires
                    rem <= 0xFFFFFFFFFFFFFFFFu128,
                    bits <= 15,
            ;
        }
        let prod = rem * bits as u128;
        let diff = (bits / 8 * 8) as u128;
        let base = if prod >= diff {
            prod - diff
        } else {
            0
        };
        let lo = (base + self.len as u128) / 8;
        let hi = (prod + self.len as u128) / 8;
        let lo_c = if lo <= usize::MAX as u128 {
            lo as usize
        } else {
            usize::MAX
        };
        let hi_c = if hi <= usize::MAX as u128 {
            Some(hi as usize)
        } else {
            None
        };
        (lo_c, hi_c)
    }

    /// The number of pending accumulator bits.
    pub closed spec fn len_bits(self) -> nat {
        self.len as nat
    }
}

/// The low remaining-item bound a decoder reports for `nchars` characters
/// plus `len` pending bits.
pub open spec fn dec_lo(bits: int, nchars: int, len: int) -> int {
    let d = bits / 8 * 8;
    let x = nchars * bits - d;
    ((if x < 0 { 0int } else { x }) + len) / 8
}

/// The high remaining-item bound a decoder reports.
pub open spec fn dec_hi(bits: int, nchars: int, len: int) -> int {
    (nchars * bits + len) / 8
}

/// The first error item of a decoded stream, if any.
pub open spec fn first_err_of(out: Seq<Result<u8, char>>) -> Option<char>
    decreases out.len(),
{
    if out.len() == 0 {
        None
    } else {
        match out[0] {
            Ok(b) => first_err_of(out.drop_first()),
            Err(c) => Some(c),
        }
    }
}

/// Prepending error-free items does not change the first error.
pub proof fn lemma_first_err_prefix(done: Seq<Result<u8, char>>, rest: Seq<Result<u8, char>>)
    requires
        forall|i: int| 0 <= i < done.len() ==> (#[trigger] done[i]) is Ok,
    ensures
        first_err_of(done + rest) == first_err_of(rest),
    decreases done.len(),
{
    if done.len() == 0 {
        assert(done + rest =~= rest);
    } else {
        assert((done + rest)[0] == done[0]);
        assert((done + rest).drop_first() =~= done.drop_first() + rest);
        assert(forall|i: int|
            0 <= i < done.drop_first().len() ==> (#[trigger] done.drop_first()[i]) is Ok);
        lemma_first_err_prefix(done.drop_first(), rest);
    }
}

/// A character stream a well-formed encoder can produce: every character is
/// in the table's alphabets, and only the last may be a finalization one.
pub open spec fn valid_stream(t: Table, chars: Seq<char>) -> bool {
    forall|i: int| 0 <= i < chars.len() ==> match #[trigger] t.spec_decode(chars[i]) {
        Some((code, fin)) => fin ==> i == chars.len() - 1,
        None => false,
    }
}

/// Whether the stream ends with a finalization character.
pub open spec fn ends_final(t: Table, chars: Seq<char>) -> bool {
    chars.len() > 0 && (t.spec_decode(chars.last()) matches Some((code, true)))
}

/// On a valid stream the decoder produces only bytes, exactly as many as the
/// contributed bits allow, and that count lies between the reported bounds.
pub proof fn lemma_dec_len(t: Table, chars: Seq<char>, acc: nat, len: nat)
    requires
        t.wf(),
        valid_stream(t, chars),
    ensures
        dec_out(t, chars, acc, len).len() == (chars.len() * t.bits - (if ends_final(t, chars) {
            8int
        } else {
            0int
        }) + len) / 8,
        forall|i: int|
            0 <= i < dec_out(t, chars, acc, len).len() ==> #[trigger] dec_out(
                t,
                chars,
                acc,
                len,
            )[i] is Ok,
    decreases chars.len(), len,
{
    let bits = t.bits as int;
    let ghost goal = (chars.len() * bits - (if ends_final(t, chars) {
        8int
    } else {
        0int
    }) + len) / 8;
    if len >= 8 {
        let s = (len - 8) as nat;
        let h = acc / pow2(s);
        lemma_dec_len(t, chars, (acc - h * pow2(s)) as nat, s);
        lemma_div_plus_one(chars.len() * bits - (if ends_final(t, chars) {
            8int
        } else {
            0int
        }) + len - 8, 8);
        assert(dec_out(t, chars, acc, len).len() == goal);
    } else if chars.len() == 0 {
        lemma_basic_div(len as int, 8);
        assert(dec_out(t, chars, acc, len).len() == goal);
    } else {
        let d = t.spec_decode(chars[0]);
        assert(d is Some);
        let pair = d.unwrap();
        let code = pair.0;
        let fin = pair.1;
        let w = dec_width(t, fin);
        let rest = chars.drop_first();
        assert(forall|i: int| 0 <= i < rest.len() ==> rest[i] == chars[i + 1]);
        assert(valid_stream(t, rest));
        if fin {
            // A finalization character closes the stream: it is the last one.
            assert(chars.len() == 1);
            assert(code < t.fini@.len());
            assert(t.bits > 8) by {
                if t.bits <= 8 {
                    assert(t.fini@.len() == 0);
                }
            }
            lemma_dec_len(t, rest, (acc * pow2(w) + code) as nat, (len + w) as nat);
            assert(rest.len() == 0);
            assert(!ends_final(t, rest));
            assert(chars.last() == chars[0]);
            assert(t.spec_decode(chars.last()) == Some((code, true)));
            assert(ends_final(t, chars));
            assert(chars.len() * bits == bits) by (nonlinear_arith)
                requires
                    chars.len() == 1,
            ;
            assert(rest.len() * bits == 0) by (nonlinear_arith)
                requires
                    rest.len() == 0,
            ;
            assert(dec_out(t, chars, acc, len).len() == goal);
        } else {
            assert(chars.last() == if rest.len() > 0 {
                rest.last()
            } else {
                chars[0]
            });
            assert(ends_final(t, rest) == ends_final(t, chars));
            lemma_dec_len(t, rest, (acc * pow2(w) + code) as nat, (len + w) as nat);
            assert((chars.len() - 1) * bits + bits == chars.len() * bits) by (nonlinear_arith);
            assert(dec_out(t, chars, acc, len).len() == goal);
        }
    }
}

/// Bound soundness as a decoder's caller sees it: on a state whose remaining
/// characters form a valid stream, the bounds `size_hint` reports bracket
/// the true number of remaining items, the length of `stream()`.
pub proof fn lemma_size_hint_bounds<'a>(dec: Decode<'a>)
    requires
        dec.wf(),
        valid_stream(dec.spec_table(), dec.remaining_chars()),
    ensures
        dec_lo(
            dec.spec_table().bits as int,
            dec.remaining_chars().len() as int,
            dec.len_bits() as int,
        ) <= dec.stream().len() <= dec_hi(
            dec.spec_table().bits as int,
            dec.remaining_chars().len() as int,
            dec.len_bits() as int,
        ),
{
    lemma_dec_bounds(dec.spec_table(), dec.remaining_chars(), dec.pending(), dec.len_bits());
}

/// Bound soundness for the decoder on a valid stream: the true number of
/// remaining items lies between the reported bounds, and both reach 0 at
/// exhaustion.
pub proof fn lemma_dec_bounds(t: Table, chars: Seq<char>, acc: nat, len: nat)
    requires
        t.wf(),
        valid_stream(t, chars),
    ensures
        dec_lo(t.bits as int, chars.len() as int, len as int) <= dec_out(t, chars, acc, len).len()
            <= dec_hi(t.bits as int, chars.len() as int, len as int),
{
    let bits = t.bits as int;
    let n = chars.len() as int;
    lemma_dec_len(t, chars, acc, len);
    let e = if ends_final(t, chars) {
        8int
    } else {
        0int
    };
    let d = bits / 8 * 8;
    if ends_final(t, chars) {
        assert(t.bits > 8) by {
            if t.bits <= 8 {
                assert(t.fini@.len() == 0);
                assert(t.spec_decode(chars.last()) matches Some((code, true)) ==> code
                    < t.fini@.len());
            }
        }
        assert(d == 8);
        assert(n * bits >= bits) by (nonlinear_arith)
            requires
                n >= 1,
                bits > 8,
        ;
        lemma_div_is_ordered(n * bits - 8 + len, n * bits + len, 8);
    } else {
        assert(n * bits >= 0) by (nonlinear_arith)
            requires
                n >= 0,
                bits >= 0,
        ;
        assert(n * bits - d <= n * bits);
        lemma_div_is_ordered((if n * bits - d < 0 {
            0int
        } else {
            n * bits - d
        }) + len, n * bits + len, 8);
    }
}

} // verus!
