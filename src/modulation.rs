//! Mapping bits onto constellation points and back.
//!
//! A constellation point has integer coordinates: BPSK sends `±1`, QPSK sends
//! `±1 ± j`. On the receiving side a point stands for the signs of an
//! equalised sample's coordinates (`-1`, `0` or `1`), which is all that the
//! decision regions look at.
use vstd::prelude::*;
use crate::bits::{bit_at, byte_bits, bools_to_u8, lemma_pack_of_bits, pack_bits, GetBitAt};

verus! {

/// A point of the constellation, or the signs of a received sample.
#[derive(Clone, Copy, Debug, PartialEq, Eq, Structural)]
pub struct Symbol {
    pub re: i8,
    pub im: i8,
}

impl Symbol {
    /// The point `0 + 0j`, sent on unused subcarriers.
    pub fn zero() -> (s: Symbol)
        ensures
            s == zero_symbol(),
    {
        Symbol { re: 0, im: 0 }
    }

    /// The point `1 + 0j`, sent on pilot subcarriers.
    pub fn pilot() -> (s: Symbol)
        ensures
            s == pilot_symbol(),
    {
        Symbol { re: 1, im: 0 }
    }
}

pub open spec fn zero_symbol() -> Symbol {
    Symbol { re: 0, im: 0 }
}

pub open spec fn pilot_symbol() -> Symbol {
    Symbol { re: 1, im: 0 }
}

/// How bits are mapped onto constellation points.
#[derive(Clone, Copy, Debug, PartialEq, Eq, Structural)]
pub enum ModulationScheme {
    /// One bit per point: 1 is `+1`, 0 is `-1`.
    Bpsk,
    /// Two bits per point, the first on the real axis, the second on the imaginary one.
    Qpsk,
    /// Reserved for 16-QAM; it carries no data.
    Qam,
}

pub open spec fn bpsk_point(b: bool) -> Symbol {
    Symbol { re: if b { 1i8 } else { -1i8 }, im: 0 }
}

pub open spec fn qpsk_point(hi: bool, lo: bool) -> Symbol {
    Symbol { re: if hi { 1i8 } else { -1i8 }, im: if lo { 1i8 } else { -1i8 } }
}

/// The points sent for the bytes `s`, each byte least significant bit first.
pub open spec fn modulated(s: Seq<u8>, scheme: ModulationScheme) -> Seq<Symbol> {
    match scheme {
        ModulationScheme::Bpsk => Seq::new(8 * s.len(), |i: int| bpsk_point(bit_at(s[i / 8], i % 8))),
        ModulationScheme::Qpsk => Seq::new(
            4 * s.len(),
            |i: int| qpsk_point(bit_at(s[i / 4], 2 * (i % 4)), bit_at(s[i / 4], 2 * (i % 4) + 1)),
        ),
        ModulationScheme::Qam => Seq::empty(),
    }
}

/// The bit that a BPSK decision reads from a point.
pub open spec fn bpsk_bit(p: Symbol) -> bool {
    p.re > 0
}

/// Byte `j` that BPSK decisions read from `x`.
pub open spec fn bpsk_byte(x: Seq<Symbol>, j: int) -> u8 {
    pack_bits(
        bpsk_bit(x[8 * j]),
        bpsk_bit(x[8 * j + 1]),
        bpsk_bit(x[8 * j + 2]),
        bpsk_bit(x[8 * j + 3]),
        bpsk_bit(x[8 * j + 4]),
        bpsk_bit(x[8 * j + 5]),
        bpsk_bit(x[8 * j + 6]),
        bpsk_bit(x[8 * j + 7]),
    )
}

/// Byte `j` that QPSK decisions read from `x`: four points, real then imaginary sign.
pub open spec fn qpsk_byte(x: Seq<Symbol>, j: int) -> u8 {
    pack_bits(
        x[4 * j].re >= 0,
        x[4 * j].im >= 0,
        x[4 * j + 1].re >= 0,
        x[4 * j + 1].im >= 0,
        x[4 * j + 2].re >= 0,
        x[4 * j + 2].im >= 0,
        x[4 * j + 3].re >= 0,
        x[4 * j + 3].im >= 0,
    )
}

/// The bytes read from the points `x`, taken eight points at a time.
pub open spec fn demodulated(x: Seq<Symbol>, scheme: ModulationScheme) -> Seq<u8> {
    match scheme {
        ModulationScheme::Bpsk => Seq::new(x.len() / 8, |j: int| bpsk_byte(x, j)),
        ModulationScheme::Qpsk => Seq::new(2 * (x.len() / 8), |j: int| qpsk_byte(x, j)),
        ModulationScheme::Qam => Seq::empty(),
    }
}

/// Maps each byte of `stream`, least significant bit first, onto constellation points.
pub fn modulate(stream: &[u8], scheme: &ModulationScheme) -> (r: Vec<Symbol>)
    ensures
        r@ == modulated(stream@, *scheme),
{
    let mut out: Vec<Symbol> = Vec::new();
    match scheme {
        ModulationScheme::Bpsk => {
            let mut i: usize = 0;
            while i < stream.len()
                invariant
                    i <= stream@.len(),
                    out@.len() == 8 * i,
                    forall|j: int|
                        0 <= j < out@.len() ==> out@[j] == bpsk_point(bit_at(stream@[j / 8], j % 8)),
                decreases stream@.len() - i,
            {
                let bools = stream[i].to_bools();
                let mut k: usize = 0;
                while k < 8
                    invariant
                        i < stream@.len(),
                        k <= 8,
                        bools@ == byte_bits(stream@[i as int]),
                        out@.len() == 8 * i + k,
                        forall|j: int|
                            0 <= j < out@.len() ==> out@[j] == bpsk_point(bit_at(stream@[j / 8], j % 8)),
                    decreases 8 - k,
                {
                    let p = if bools[k] { Symbol { re: 1, im: 0 } } else { Symbol { re: -1, im: 0 } };
                    out.push(p);
                    k = k + 1;
                }
                i = i + 1;
            }
        },
        ModulationScheme::Qpsk => {
            let mut i: usize = 0;
            while i < stream.len()
                invariant
                    i <= stream@.len(),
                    out@.len() == 4 * i,
                    forall|j: int|
                        0 <= j < out@.len() ==> out@[j] == qpsk_point(
                            bit_at(stream@[j / 4], 2 * (j % 4)),
                            bit_at(stream@[j / 4], 2 * (j % 4) + 1),
                        ),
                decreases stream@.len() - i,
            {
                let bools = stream[i].to_bools();
                let mut k: usize = 0;
                while k < 4
                    invariant
                        i < stream@.len(),
                        k <= 4,
                        bools@ == byte_bits(stream@[i as int]),
                        out@.len() == 4 * i + k,
                        forall|j: int|
                            0 <= j < out@.len() ==> out@[j] == qpsk_point(
                                bit_at(stream@[j / 4], 2 * (j % 4)),
                                bit_at(stream@[j / 4], 2 * (j % 4) + 1),
                            ),
                    decreases 4 - k,
                {
                    let re: i8 = if bools[2 * k] { 1 } else { -1 };
                    let im: i8 = if bools[2 * k + 1] { 1 } else { -1 };
                    out.push(Symbol { re, im });
                    k = k + 1;
                }
                i = i + 1;
            }
        },
        ModulationScheme::Qam => {},
    }
    assert(out@ =~= modulated(stream@, *scheme));
    out
}

/// Reads bytes back from points, eight points at a time: BPSK reads one bit
/// per point (`re > 0`), QPSK two (`re >= 0`, then `im >= 0`).
pub fn demodulate(stream: Vec<Symbol>, scheme: ModulationScheme) -> (r: Vec<u8>)
    requires
        stream@.len() % 8 == 0,
    ensures
        r@ == demodulated(stream@, scheme),
{
    let x = stream.as_slice();
    let mut out: Vec<u8> = Vec::new();
    let n = x.len() / 8;
    match scheme {
        ModulationScheme::Bpsk => {
            let mut c: usize = 0;
            while c < n
                invariant
                    c <= n,
                    n == x@.len() / 8,
                    n == x.len() / 8,
                    out@ =~= Seq::new(c as nat, |j: int| bpsk_byte(x@, j)),
                decreases n - c,
            {
                let b = 8 * c;
                let bools = [
                    x[b].re > 0,
                    x[b + 1].re > 0,
                    x[b + 2].re > 0,
                    x[b + 3].re > 0,
                    x[b + 4].re > 0,
                    x[b + 5].re > 0,
                    x[b + 6].re > 0,
                    x[b + 7].re > 0,
                ];
                out.push(bools_to_u8(bools));
                c = c + 1;
            }
        },
        ModulationScheme::Qpsk => {
            let mut c: usize = 0;
            while c < 2 * n
                invariant
                    c <= 2 * n,
                    n == x@.len() / 8,
                    n == x.len() / 8,
                    out@ =~= Seq::new(c as nat, |j: int| qpsk_byte(x@, j)),
                decreases 2 * n - c,
            {
                let b = 4 * c;
                let bools = [
                    x[b].re >= 0,
                    x[b].im >= 0,
                    x[b + 1].re >= 0,
                    x[b + 1].im >= 0,
                    x[b + 2].re >= 0,
                    x[b + 2].im >= 0,
                    x[b + 3].re >= 0,
                    x[b + 3].im >= 0,
                ];
                out.push(bools_to_u8(bools));
                c = c + 1;
            }
        },
        ModulationScheme::Qam => {},
    }
    out
}

/// Reading back what was modulated gives the bytes, whatever points follow
/// them to fill whole groups of eight.
pub proof fn lemma_modulation_round_trip(s: Seq<u8>, scheme: ModulationScheme, pad: Seq<Symbol>)
    requires
        scheme != ModulationScheme::Qam,
        (modulated(s, scheme).len() + pad.len()) % 8 == 0,
    ensures
        demodulated(modulated(s, scheme) + pad, scheme).len() >= s.len(),
        demodulated(modulated(s, scheme) + pad, scheme).subrange(0, s.len() as int) == s,
{
    let m = modulated(s, scheme);
    let x = m + pad;
    let d = demodulated(x, scheme);
    assert forall|j: int| 0 <= j < s.len() implies #[trigger] d[j] == s[j] by {
        lemma_pack_of_bits(s[j]);
        if scheme == ModulationScheme::Bpsk {
            assert forall|k: int| 0 <= k < 8 implies #[trigger] x[8 * j + k] == bpsk_point(bit_at(s[j], k)) by {
                assert((8 * j + k) / 8 == j);
                assert((8 * j + k) % 8 == k);
            }
            assert(x[8 * j] == bpsk_point(bit_at(s[j], 0)));
            assert(x[8 * j + 1] == bpsk_point(bit_at(s[j], 1)));
            assert(x[8 * j + 2] == bpsk_point(bit_at(s[j], 2)));
            assert(x[8 * j + 3] == bpsk_point(bit_at(s[j], 3)));
            assert(x[8 * j + 4] == bpsk_point(bit_at(s[j], 4)));
            assert(x[8 * j + 5] == bpsk_point(bit_at(s[j], 5)));
            assert(x[8 * j + 6] == bpsk_point(bit_at(s[j], 6)));
            assert(x[8 * j + 7] == bpsk_point(bit_at(s[j], 7)));
        } else {
            assert forall|t: int| 0 <= t < 4 implies #[trigger] x[4 * j + t] == qpsk_point(
                bit_at(s[j], 2 * t),
                bit_at(s[j], 2 * t + 1),
            ) by {
                assert((4 * j + t) / 4 == j);
                assert((4 * j + t) % 4 == t);
            }
            assert(x[4 * j] == qpsk_point(bit_at(s[j], 0), bit_at(s[j], 1)));
            assert(x[4 * j + 1] == qpsk_point(bit_at(s[j], 2), bit_at(s[j], 3)));
            assert(x[4 * j + 2] == qpsk_point(bit_at(s[j], 4), bit_at(s[j], 5)));
            assert(x[4 * j + 3] == qpsk_point(bit_at(s[j], 6), bit_at(s[j], 7)));
        }
    }
    assert(d.subrange(0, s.len() as int) =~= s);
}

} // verus!
