use vstd::prelude::*;

verus! {

use vstd::arithmetic::power2::pow2;
use vstd::arithmetic::power2::lemma_pow2_adds;
use vstd::arithmetic::power2::lemma_pow2_pos;
use vstd::arithmetic::div_mod::lemma_fundamental_div_mod_converse;
use vstd::arithmetic::div_mod::lemma_mod_bound;
use vstd::arithmetic::div_mod::lemma_small_mod;
use vstd::arithmetic::div_mod::lemma_mod_sub_multiples_vanish;
use crate::table::Table;
use crate::encode::enc_out;
use crate::decode::dec_out;
use crate::decode::dec_width;
use crate::pack::lemma_split_at;

/// The value of a byte sequence read as one big-endian number.
pub open spec fn val_of(bytes: Seq<u8>) -> nat
    decreases bytes.len(),
{
    if bytes.len() == 0 {
        0
    } else {
        (bytes.first() * pow2((8 * (bytes.len() - 1)) as nat) + val_of(bytes.drop_first())) as nat
    }
}

/// The top `n` bits of a value, split into whole bytes; a final group of
/// fewer than 8 bits is dropped.
pub open spec fn bytes_of(v: nat, n: nat) -> Seq<u8>
    decreases n,
{
    if n >= 8 {
        let s = (n - 8) as nat;
        let h = v / pow2(s);
        seq![h as u8] + bytes_of((v - h * pow2(s)) as nat, s)
    } else {
        Seq::empty()
    }
}

/// Every byte wrapped as a successful decode item.
pub open spec fn oks(s: Seq<u8>) -> Seq<Result<u8, char>> {
    s.map_values(|b: u8| Ok::<u8, char>(b))
}

proof fn lemma_oks_cons(x: u8, s: Seq<u8>)
    ensures
        oks(seq![x] + s) == seq![Ok::<u8, char>(x)] + oks(s),
{
    assert(oks(seq![x] + s) =~= seq![Ok::<u8, char>(x)] + oks(s));
}

proof fn lemma_val_of_bound(s: Seq<u8>)
    ensures
        val_of(s) < pow2((8 * s.len()) as nat),
    decreases s.len(),
{
    if s.len() == 0 {
        lemma_pow2_pos(0);
    } else {
        let n1 = (8 * (s.len() - 1)) as nat;
        lemma_val_of_bound(s.drop_first());
        lemma_pow2_adds(n1, 8);
        vstd::arithmetic::power2::lemma2_to64();
        assert((s.first() as nat) * pow2(n1) + val_of(s.drop_first()) < pow2(n1 + 8))
            by (nonlinear_arith)
            requires
                (s.first() as nat) < 256,
                val_of(s.drop_first()) < pow2(n1),
                pow2(n1 + 8) == pow2(n1) * 256,
        ;
    }
}

/// Splitting off the top byte of a padded big-endian value gives the first
/// byte of the sequence.
proof fn lemma_bytes_of_val(s: Seq<u8>, p: nat)
    requires
        p < 8,
    ensures
        bytes_of((val_of(s) * pow2(p)) as nat, (8 * s.len() + p) as nat) == s,
    decreases s.len(),
{
    lemma_pow2_pos(p);
    if s.len() == 0 {
        assert(bytes_of(0 * pow2(p), p) =~= s);
    } else {
        let n1 = (8 * (s.len() - 1)) as nat;
        let v = (val_of(s) * pow2(p)) as nat;
        let total = (8 * s.len() + p) as nat;
        let sft = (n1 + p) as nat;
        let rest_v = (val_of(s.drop_first()) * pow2(p)) as nat;
        lemma_pow2_pos(sft);
        lemma_pow2_adds(n1, p);
        lemma_val_of_bound(s.drop_first());
        assert(v == (s.first() as nat) * pow2(sft) + rest_v && rest_v < pow2(sft))
            by (nonlinear_arith)
            requires
                val_of(s) == (s.first() as nat) * pow2(n1) + val_of(s.drop_first()),
                rest_v == val_of(s.drop_first()) * pow2(p),
                v == val_of(s) * pow2(p),
                val_of(s.drop_first()) < pow2(n1),
                pow2(sft) == pow2(n1) * pow2(p),
                pow2(p) > 0,
                pow2(n1) > 0,
        ;
        lemma_fundamental_div_mod_converse(
            v as int,
            pow2(sft) as int,
            s.first() as int,
            rest_v as int,
        );
        assert(v / pow2(sft) == s.first() as nat);
        assert((v - (s.first() as nat) * pow2(sft)) as nat == rest_v);
        lemma_bytes_of_val(s.drop_first(), p);
        assert(total - 8 == sft);
        assert(bytes_of(v, total) == seq![s.first()] + bytes_of(rest_v, sft));
        assert(seq![s.first()] + s.drop_first() =~= s);
    }
}

/// With the characters exhausted, the decoder drains its accumulator into
/// whole bytes.
proof fn lemma_dec_empty(t: Table, d: nat, m: nat)
    requires
        t.wf(),
        d < pow2(m),
    ensures
        dec_out(t, Seq::empty(), d, m) == oks(bytes_of(d, m)),
    decreases m,
{
    if m >= 8 {
        let sm = (m - 8) as nat;
        let h = d / pow2(sm);
        lemma_split_at(d, sm, 8);
        vstd::arithmetic::mul::lemma_mul_is_commutative(h as int, pow2(sm) as int);
        lemma_pow2_pos(sm);
        assert((d - h * pow2(sm)) as nat == d % pow2(sm) && d % pow2(sm) < pow2(sm))
            by (nonlinear_arith)
            requires
                h == d / pow2(sm),
                pow2(sm) > 0,
        ;
        lemma_dec_empty(t, (d - h * pow2(sm)) as nat, sm);
        lemma_oks_cons(h as u8, bytes_of((d - h * pow2(sm)) as nat, sm));
    } else {
        assert(dec_out(t, Seq::empty(), d, m) =~= oks(bytes_of(d, m)));
    }
}

/// The amount of zero padding the encoder appends: enough to widen the last
/// partial group, if any, to the width of the alphabet it is drawn from.
pub open spec fn pad_of(bits: int, nbits: int) -> int {
    let r = nbits % bits;
    if r == 0 {
        0
    } else if r > bits - 8 {
        bits - r
    } else {
        bits - 8 - r
    }
}

/// Decoding the encoder's output drains, in whole bytes, the decoder's
/// pending bits, then the encoder's pending bits, then the source bytes,
/// then the zero padding.
#[verifier::rlimit(100)]
proof fn lemma_rt(t: Table, bytes: Seq<u8>, a: nat, l: nat, d: nat, m: nat)
    requires
        t.wf(),
        a < pow2(l),
        d < pow2(m),
    ensures
        ({
            let bits = t.bits as int;
            let pad = pad_of(bits, (l + 8 * bytes.len()) as int);
            let total = (m + l + 8 * bytes.len() + pad) as nat;
            let v = (((d * pow2(l) + a) * pow2((8 * bytes.len()) as nat) + val_of(bytes)) * pow2(
                pad as nat,
            )) as nat;
            dec_out(t, enc_out(t, bytes, a, l), d, m) == oks(bytes_of(v, total))
        }),
    decreases bytes.len(), l + m, l,
{
    let bits = t.bits as int;
    let nb = (8 * bytes.len()) as nat;
    let pad = pad_of(bits, (l + nb) as int);
    lemma_mod_bound((l + nb) as int, bits);
    assert(0 <= pad < bits);
    let total = (m + l + nb + pad) as nat;
    let big = ((d * pow2(l) + a) * pow2(nb) + val_of(bytes)) as nat;
    let v = (big * pow2(pad as nat)) as nat;
    let x = (l + nb + pad) as nat;
    lemma_pow2_pos(l);
    lemma_pow2_pos(m);
    lemma_pow2_pos(nb);
    lemma_pow2_pos(pad as nat);
    lemma_pow2_pos(x);
    lemma_pow2_adds(l, nb);
    lemma_pow2_adds((l + nb) as nat, pad as nat);
    lemma_val_of_bound(bytes);
    // The value splits as d at the top and everything else below.
    let low = ((a * pow2(nb) + val_of(bytes)) * pow2(pad as nat)) as nat;
    assert(v == d * pow2(x) + low && low < pow2(x)) by (nonlinear_arith)
        requires
            big == (d * pow2(l) + a) * pow2(nb) + val_of(bytes),
            v == big * pow2(pad as nat),
            low == (a * pow2(nb) + val_of(bytes)) * pow2(pad as nat),
            a < pow2(l),
            val_of(bytes) < pow2(nb),
            pow2((l + nb) as nat) == pow2(l) * pow2(nb),
            pow2(x) == pow2((l + nb) as nat) * pow2(pad as nat),
            pow2(l) > 0,
            pow2(nb) > 0,
            pow2(pad as nat) > 0,
            x == l + nb + pad,
    ;
    if m >= 8 {
        // The decoder first drains a byte of its own pending bits.
        let sm = (m - 8) as nat;
        let hd = d / pow2(sm);
        lemma_split_at(d, sm, 8);
        vstd::arithmetic::mul::lemma_mul_is_commutative(hd as int, pow2(sm) as int);
        lemma_pow2_pos(sm);
        assert((d - hd * pow2(sm)) as nat == d % pow2(sm) && d % pow2(sm) < pow2(sm))
            by (nonlinear_arith)
            requires
                hd == d / pow2(sm),
                pow2(sm) > 0,
        ;
        let dr = (d - hd * pow2(sm)) as nat;
        assert(dr < pow2(sm));
        lemma_rt(t, bytes, a, l, dr, sm);
        let v2 = ((dr * pow2(l) + a) * pow2(nb) + val_of(bytes)) * pow2(pad as nat);
        lemma_pow2_pos(sm);
        lemma_pow2_adds(sm, x);
        assert(v2 == dr * pow2(x) + low) by (nonlinear_arith)
            requires
                v2 == ((dr * pow2(l) + a) * pow2(nb) + val_of(bytes)) * pow2(pad as nat),
                low == (a * pow2(nb) + val_of(bytes)) * pow2(pad as nat),
                pow2((l + nb) as nat) == pow2(l) * pow2(nb),
                pow2(x) == pow2((l + nb) as nat) * pow2(pad as nat),
                x == l + nb + pad,
        ;
        assert(v == hd * pow2((sm + x) as nat) + v2) by (nonlinear_arith)
            requires
                v == d * pow2(x) + low,
                d == hd * pow2(sm) + dr,
                v2 == dr * pow2(x) + low,
                pow2((sm + x) as nat) == pow2(sm) * pow2(x),
        ;
        assert(v2 < pow2((sm + x) as nat)) by (nonlinear_arith)
            requires
                v2 == dr * pow2(x) + low,
                dr < pow2(sm),
                low < pow2(x),
                pow2((sm + x) as nat) == pow2(sm) * pow2(x),
        ;
        lemma_fundamental_div_mod_converse(
            v as int,
            pow2((sm + x) as nat) as int,
            hd as int,
            v2 as int,
        );
        assert(total - 8 == sm + x);
        assert(bytes_of(v, total) == seq![hd as u8] + bytes_of(v2 as nat, (sm + x) as nat));
        lemma_oks_cons(hd as u8, bytes_of(v2 as nat, (sm + x) as nat));
        assert(dec_out(t, enc_out(t, bytes, a, l), d, m) == seq![Ok::<u8, char>(hd as u8)]
            + dec_out(t, enc_out(t, bytes, a, l), dr, sm));
    } else if l >= bits {
        // The encoder emits a full group; the decoder folds it back in.
        let s = (l - bits) as nat;
        let h = a / pow2(s);
        lemma_split_at(a, s, bits as nat);
        vstd::arithmetic::mul::lemma_mul_is_commutative(h as int, pow2(s) as int);
        lemma_pow2_pos(s);
        assert((a - h * pow2(s)) as nat == a % pow2(s) && a % pow2(s) < pow2(s))
            by (nonlinear_arith)
            requires
                h == a / pow2(s),
                pow2(s) > 0,
        ;
        let ar = (a - h * pow2(s)) as nat;
        assert(ar < pow2(s));
        let c0 = t.init@[h as int];
        assert(t.spec_decode(c0) == Some((h as u32, false)));
        let d2 = (d * pow2(bits as nat) + h) as nat;
        let m2 = (m + bits) as nat;
        lemma_pow2_pos(s);
        lemma_pow2_pos(bits as nat);
        lemma_pow2_adds(m, bits as nat);
        assert(d2 < pow2(m2)) by (nonlinear_arith)
            requires
                d < pow2(m),
                h < pow2(bits as nat),
                d2 == d * pow2(bits as nat) + h,
                pow2(m2) == pow2(m) * pow2(bits as nat),
        ;
        lemma_rt(t, bytes, ar, s, d2, m2);
        // The combined value is unchanged by moving the group.
        lemma_pow2_adds(s, bits as nat);
        assert(d2 * pow2(s) + ar == d * pow2(l) + a) by (nonlinear_arith)
            requires
                d2 == d * pow2(bits as nat) + h,
                a == pow2(s) * h + (a - h * pow2(s)),
                ar == a - h * pow2(s),
                pow2(l) == pow2(s) * pow2(bits as nat),
                l == s + bits,
        ;
        lemma_mod_sub_multiples_vanish((l + nb) as int, bits);
        assert(pad_of(bits, (s + nb) as int) == pad);
        let e2 = enc_out(t, bytes, ar, s);
        assert(enc_out(t, bytes, a, l) == seq![c0] + e2);
        assert((seq![c0] + e2).first() == c0);
        assert((seq![c0] + e2).drop_first() =~= e2);
        assert(dec_width(t, false) == bits);
        vstd::arithmetic::power2::lemma2_to64();
        if bits < 15 {
            vstd::arithmetic::power2::lemma_pow2_strictly_increases(bits as nat, 15);
        }
        assert((h as u32) as nat == h);
        assert(dec_out(t, enc_out(t, bytes, a, l), d, m) == dec_out(
            t,
            enc_out(t, bytes, ar, s),
            d2,
            m2,
        ));
        assert((m2 + s + nb + pad) as nat == total);
        assert(((d2 * pow2(s) + ar) * pow2(nb) + val_of(bytes)) * pow2(pad as nat) == v);
    } else if bytes.len() > 0 {
        // The encoder pulls a byte into its accumulator.
        let b0 = bytes.first() as nat;
        let a2 = (a * 256 + b0) as nat;
        let l2 = (l + 8) as nat;
        lemma_pow2_adds(l, 8);
        vstd::arithmetic::power2::lemma2_to64();
        assert(a2 < pow2(l2)) by (nonlinear_arith)
            requires
                a < pow2(l),
                b0 < 256,
                a2 == a * 256 + b0,
                pow2(l2) == pow2(l) * 256,
        ;
        lemma_rt(t, bytes.drop_first(), a2, l2, d, m);
        let nb2 = (8 * bytes.drop_first().len()) as nat;
        assert(nb == nb2 + 8);
        lemma_pow2_adds(nb2, 8);
        assert(((d * pow2(l2) + a2) * pow2(nb2) + val_of(bytes.drop_first())) == big)
            by (nonlinear_arith)
            requires
                big == (d * pow2(l) + a) * pow2(nb) + val_of(bytes),
                val_of(bytes) == b0 * pow2(nb2) + val_of(bytes.drop_first()),
                a2 == a * 256 + b0,
                l2 == l + 8,
                pow2(l2) == pow2(l) * 256,
                pow2(nb) == pow2(nb2) * 256,
                pow2(nb) == 256 * pow2(nb2),
        ;
        assert(pad_of(bits, (l2 + nb2) as int) == pad);
        assert((m + l2 + nb2 + pad) as nat == total);
    } else if l == 0 {
        // Nothing pending and nothing left: the decoder drains `d` alone.
        lemma_dec_empty(t, d, m);
        vstd::arithmetic::power2::lemma2_to64();
        assert(a == 0);
        assert(pad == 0) by {
            lemma_small_mod(0, bits as nat);
        }
        assert(v == d) by (nonlinear_arith)
            requires
                v == ((d * pow2(0) + 0) * pow2(0) + 0) * pow2(0),
                pow2(0) == 1,
        ;
    } else {
        // One final partial group is emitted, padded with zero bits.
        assert(pad_of(bits, l as int) == pad);
        assert(l as int % bits == l) by {
            lemma_small_mod(l, bits as nat);
        }
        if l > bits - 8 {
            let w = (bits - l) as nat;
            let code = (a * pow2(w)) as nat;
            lemma_pow2_adds(l, w);
            lemma_pow2_pos(w);
            vstd::arithmetic::power2::lemma2_to64();
            assert(code < pow2(bits as nat)) by (nonlinear_arith)
                requires
                    a < pow2(l),
                    code == a * pow2(w),
                    pow2(bits as nat) == pow2(l) * pow2(w),
                    pow2(w) > 0,
            ;
            let c0 = t.init@[code as int];
            assert(t.spec_decode(c0) == Some((code as u32, false)));
            assert(dec_width(t, false) == bits);
            let d2 = (d * pow2(bits as nat) + code) as nat;
            let m2 = (m + bits) as nat;
            lemma_pow2_pos(bits as nat);
            lemma_pow2_adds(m, bits as nat);
            assert(d2 < pow2(m2)) by (nonlinear_arith)
                requires
                    d < pow2(m),
                    code < pow2(bits as nat),
                    d2 == d * pow2(bits as nat) + code,
                    pow2(m2) == pow2(m) * pow2(bits as nat),
            ;
            lemma_dec_empty(t, d2, m2);
            assert(pad == bits - l);
            assert(total == m2);
            assert(v == d2) by (nonlinear_arith)
                requires
                    v == ((d * pow2(l) + a) * pow2(0) + 0) * pow2((bits - l) as nat),
                    d2 == d * pow2(bits as nat) + a * pow2((bits - l) as nat),
                    code == a * pow2((bits - l) as nat),
                    pow2(bits as nat) == pow2(l) * pow2((bits - l) as nat),
                    pow2(0) == 1,
            ;
            assert(dec_out(t, enc_out(t, bytes, a, l), d, m) == dec_out(
                t,
                Seq::<char>::empty(),
                d2,
                m2,
            )) by {
                assert(enc_out(t, bytes, a, l) == seq![c0]);
                assert(seq![c0].drop_first() =~= Seq::<char>::empty());
            }
        } else {
            let w = (bits - 8 - l) as nat;
            let code = (a * pow2(w)) as nat;
            assert(bits > 8);
            lemma_pow2_adds(l, w);
            lemma_pow2_pos(w);
            vstd::arithmetic::power2::lemma2_to64();
            assert(code < pow2((bits - 8) as nat)) by (nonlinear_arith)
                requires
                    a < pow2(l),
                    code == a * pow2(w),
                    pow2((bits - 8) as nat) == pow2(l) * pow2(w),
                    pow2(w) > 0,
            ;
            assert(t.fini@.len() == pow2((t.bits - 8) as nat));
            let c0 = t.fini@[code as int];
            assert(t.spec_decode(c0) == Some((code as u32, true)));
            assert(dec_width(t, true) == bits - 8);
            let d2 = (d * pow2((bits - 8) as nat) + code) as nat;
            let m2 = (m + bits - 8) as nat;
            lemma_pow2_pos((bits - 8) as nat);
            lemma_pow2_adds(m, (bits - 8) as nat);
            assert(d2 < pow2(m2)) by (nonlinear_arith)
                requires
                    d < pow2(m),
                    code < pow2((bits - 8) as nat),
                    d2 == d * pow2((bits - 8) as nat) + code,
                    pow2(m2) == pow2(m) * pow2((bits - 8) as nat),
            ;
            lemma_dec_empty(t, d2, m2);
            assert(pad == bits - 8 - l);
            assert(total == m2);
            assert(v == d2) by (nonlinear_arith)
                requires
                    v == ((d * pow2(l) + a) * pow2(0) + 0) * pow2((bits - 8 - l) as nat),
                    d2 == d * pow2((bits - 8) as nat) + a * pow2((bits - 8 - l) as nat),
                    code == a * pow2((bits - 8 - l) as nat),
                    pow2((bits - 8) as nat) == pow2(l) * pow2((bits - 8 - l) as nat),
                    pow2(0) == 1,
            ;
            assert(dec_out(t, enc_out(t, bytes, a, l), d, m) == dec_out(
                t,
                Seq::<char>::empty(),
                d2,
                m2,
            )) by {
                assert(enc_out(t, bytes, a, l) == seq![c0]);
                assert(seq![c0].drop_first() =~= Seq::<char>::empty());
            }
        }
    }
}

/// An error-free stream holds no error item: together with the round trip,
/// whole-buffer decoding of an encoding cannot return an error.
pub proof fn lemma_oks_no_err(s: Seq<u8>)
    ensures
        crate::decode::first_err_of(oks(s)) == None::<char>,
    decreases s.len(),
{
    if s.len() > 0 {
        assert(oks(s)[0] == Ok::<u8, char>(s[0]));
        assert(oks(s).drop_first() =~= oks(s.drop_first()));
        lemma_oks_no_err(s.drop_first());
    }
}

/// Wrapping bytes as successful items loses nothing: equal item streams
/// come from equal byte sequences.
pub proof fn lemma_oks_injective(x: Seq<u8>, y: Seq<u8>)
    requires
        oks(x) == oks(y),
    ensures
        x == y,
{
    assert(oks(x).len() == x.len());
    assert(oks(y).len() == y.len());
    assert forall|i: int| 0 <= i < x.len() implies x[i] == y[i] by {
        assert(oks(x)[i] == Ok::<u8, char>(x[i]));
        assert(oks(y)[i] == Ok::<u8, char>(y[i]));
    }
    assert(x =~= y);
}

/// Round trip: decoding the encoding of any byte sequence yields exactly
/// those bytes, each as a successful item, with no error and no leftover.
pub proof fn lemma_round_trip(t: Table, bytes: Seq<u8>)
    requires
        t.wf(),
    ensures
        dec_out(t, enc_out(t, bytes, 0, 0), 0, 0) == oks(bytes),
{
    let bits = t.bits as int;
    lemma_pow2_pos(0);
    lemma_rt(t, bytes, 0, 0, 0, 0);
    let nb = (8 * bytes.len()) as nat;
    let pad = pad_of(bits, nb as int);
    lemma_mod_bound(nb as int, bits);
    assert(0 <= pad < 8);
    let v = (((0 * pow2(0) + 0) * pow2(nb) + val_of(bytes)) * pow2(pad as nat)) as nat;
    assert(v == val_of(bytes) * pow2(pad as nat)) by (nonlinear_arith)
        requires
            v == ((0 * pow2(0) + 0) * pow2(nb) + val_of(bytes)) * pow2(pad as nat),
    ;
    lemma_bytes_of_val(bytes, pad as nat);
    assert((0 + 0 + nb + pad) as nat == (8 * bytes.len() + pad) as nat);
}

} // verus!
