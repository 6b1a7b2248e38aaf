//! The layout of constellation points on the 64 subcarriers of an OFDM block.
//!
//! With guard bands, subcarriers 0 to 5 and 59 to 63 stay empty, as does the
//! DC subcarrier 32; subcarriers 6, 25, 39 and 58 carry the pilot `1 + 0j`;
//! the other 48 carry data in ascending order. Without guard bands all 64
//! carry data.
use vstd::prelude::*;
use crate::modulation::{pilot_symbol, zero_symbol, Symbol};
use vstd::arithmetic::div_mod::lemma_fundamental_div_mod_converse;

verus! {

/// Subcarriers in one block, and the length of its FFT.
pub const FFT_LEN: usize = 64;

/// Subcarriers that carry data when guard bands are on.
pub const GUARDED_DATA_LEN: usize = 48;

/// The role of a subcarrier.
#[derive(Clone, Copy, Debug, PartialEq, Eq, Structural)]
pub enum Subcarrier {
    /// Left empty: a guard band or the DC subcarrier.
    Guard,
    /// Carries the known pilot `1 + 0j`.
    Pilot,
    /// Carries the next data point.
    Data,
}

pub open spec fn is_guard(i: int) -> bool {
    i <= 5 || i >= 59 || i == 32
}

pub open spec fn is_pilot(i: int) -> bool {
    i == 6 || i == 25 || i == 39 || i == 58
}

/// The role of subcarrier `i`.
pub open spec fn subcarrier_of(i: int, guard_bands: bool) -> Subcarrier {
    if guard_bands && is_guard(i) {
        Subcarrier::Guard
    } else if guard_bands && is_pilot(i) {
        Subcarrier::Pilot
    } else {
        Subcarrier::Data
    }
}

/// Data subcarriers in one block.
pub open spec fn data_per_block(guard_bands: bool) -> int {
    if guard_bands {
        48
    } else {
        64
    }
}

/// Number of data subcarriers below subcarrier `i` (for `0 <= i <= 64`).
pub open spec fn data_rank(i: int, guard_bands: bool) -> int {
    if !guard_bands {
        i
    } else if i <= 7 {
        0
    } else if i <= 25 {
        i - 7
    } else if i <= 32 {
        i - 8
    } else if i <= 39 {
        i - 9
    } else if i <= 58 {
        i - 10
    } else {
        48
    }
}

/// The subcarrier that carries data point `r` of a block.
pub open spec fn data_slot(r: int, guard_bands: bool) -> int {
    if !guard_bands {
        r
    } else if r < 18 {
        r + 7
    } else if r < 24 {
        r + 8
    } else if r < 30 {
        r + 9
    } else {
        r + 10
    }
}

proof fn lemma_rank_step(i: int, guard_bands: bool)
    requires
        0 <= i < 64,
    ensures
        data_rank(i + 1, guard_bands) == data_rank(i, guard_bands) + if subcarrier_of(i, guard_bands)
            == Subcarrier::Data {
            1int
        } else {
            0int
        },
        subcarrier_of(i, guard_bands) == Subcarrier::Data ==> data_slot(
            data_rank(i, guard_bands),
            guard_bands,
        ) == i,
{
}

proof fn lemma_slot_of_rank(r: int, guard_bands: bool)
    requires
        0 <= r < data_per_block(guard_bands),
    ensures
        0 <= data_slot(r, guard_bands) < 64,
        subcarrier_of(data_slot(r, guard_bands), guard_bands) == Subcarrier::Data,
        data_rank(data_slot(r, guard_bands), guard_bands) == r,
{
}

/// The role of subcarrier `i` of a block.
pub fn subcarrier(i: usize, guard_bands: bool) -> (r: Subcarrier)
    ensures
        r == subcarrier_of(i as int, guard_bands),
{
    if guard_bands && (i >= 59 || i <= 5 || i == 32) {
        Subcarrier::Guard
    } else if guard_bands && (i == 6 || i == 25 || i == 39 || i == 58) {
        Subcarrier::Pilot
    } else {
        Subcarrier::Data
    }
}

/// Data subcarriers in one block.
pub fn data_len(guard_bands: bool) -> (r: usize)
    ensures
        r == data_per_block(guard_bands),
{
    if guard_bands {
        GUARDED_DATA_LEN
    } else {
        FFT_LEN
    }
}

/// The subcarrier that carries data point `r` of a block.
pub fn data_subcarrier(r: usize, guard_bands: bool) -> (i: usize)
    requires
        r < data_per_block(guard_bands),
    ensures
        i == data_slot(r as int, guard_bands),
{
    if !guard_bands {
        r
    } else if r < 18 {
        r + 7
    } else if r < 24 {
        r + 8
    } else if r < 30 {
        r + 9
    } else {
        r + 10
    }
}

/// What subcarrier `i` of a block carries when its data points are taken
/// from `s` starting at `start`, zeros once `s` runs out.
pub open spec fn slot_value(s: Seq<Symbol>, start: int, i: int, guard_bands: bool) -> Symbol {
    match subcarrier_of(i, guard_bands) {
        Subcarrier::Guard => zero_symbol(),
        Subcarrier::Pilot => pilot_symbol(),
        Subcarrier::Data => {
            let j = start + data_rank(i, guard_bands);
            if j < s.len() {
                s[j]
            } else {
                zero_symbol()
            }
        },
    }
}

/// Builds one block of 64 subcarriers from the data points of `stream`
/// starting at `start`, padding with zeros once it runs out.
pub fn encode_block(stream: &[Symbol], start: usize, guard_bands: bool) -> (r: Vec<Symbol>)
    ensures
        r@ == Seq::new(64, |i: int| slot_value(stream@, start as int, i, guard_bands)),
{
    let avail: usize = if start < stream.len() { stream.len() - start } else { 0 };
    let mut out: Vec<Symbol> = Vec::with_capacity(FFT_LEN);
    let mut i: usize = 0;
    let mut count: usize = 0;
    while i < FFT_LEN
        invariant
            i <= FFT_LEN,
            count == data_rank(i as int, guard_bands),
            count <= i,
            avail == if start < stream.len() { stream.len() - start } else { 0 },
            out@ =~= Seq::new(i as nat, |t: int| slot_value(stream@, start as int, t, guard_bands)),
        decreases FFT_LEN - i,
    {
        proof {
            lemma_rank_step(i as int, guard_bands);
        }
        match subcarrier(i, guard_bands) {
            Subcarrier::Guard => out.push(Symbol::zero()),
            Subcarrier::Pilot => out.push(Symbol::pilot()),
            Subcarrier::Data => {
                if count < avail {
                    out.push(stream[start + count]);
                } else {
                    out.push(Symbol::zero());
                }
                count = count + 1;
            },
        }
        i = i + 1;
    }
    out
}

/// Number of blocks needed for `n` data points.
pub open spec fn num_blocks(n: int, guard_bands: bool) -> int {
    (n + data_per_block(guard_bands) - 1) / data_per_block(guard_bands)
}

/// The blocks that carry the data points `s`, one after the other.
pub open spec fn blocks_of(s: Seq<Symbol>, guard_bands: bool) -> Seq<Symbol> {
    Seq::new(
        (64 * num_blocks(s.len() as int, guard_bands)) as nat,
        |t: int| slot_value(s, (t / 64) * data_per_block(guard_bands), t % 64, guard_bands),
    )
}

/// Lays the data points `symbols` out over as many blocks as they need.
pub fn encode_blocks(symbols: &[Symbol], guard_bands: bool) -> (r: Vec<Symbol>)
    ensures
        r@ == blocks_of(symbols@, guard_bands),
{
    let len = symbols.len();
    let per = data_len(guard_bands);
    let n = len / per + if len % per != 0 { 1usize } else { 0usize };
    assert(n == num_blocks(len as int, guard_bands));
    let mut out: Vec<Symbol> = Vec::new();
    let mut b: usize = 0;
    let mut start: usize = 0;
    while b < n
        invariant
            b <= n,
            per == data_per_block(guard_bands),
            n == num_blocks(len as int, guard_bands),
            len == symbols@.len(),
            b < n ==> start == b * per,
            out@ =~= Seq::new(
                (64 * b) as nat,
                |t: int| slot_value(symbols@, (t / 64) * per as int, t % 64, guard_bands),
            ),
        decreases n - b,
    {
        let block = encode_block(symbols, start, guard_bands);
        let ghost before = out@;
        let mut block = block;
        out.append(&mut block);
        proof {
            assert forall|t: int| 64 * b <= t < 64 * b + 64 implies #[trigger] out@[t] == slot_value(
                symbols@,
                (t / 64) * per as int,
                t % 64,
                guard_bands,
            ) by {
                assert(t / 64 == b);
                assert(t % 64 == t - 64 * b);
            }
        }
        if b + 1 < n {
            start = start + per;
        }
        b = b + 1;
    }
    out
}

/// The data points of the whole blocks of `x`, in order.
pub open spec fn block_data(x: Seq<Symbol>, guard_bands: bool) -> Seq<Symbol> {
    Seq::new(
        ((x.len() / 64) * data_per_block(guard_bands)) as nat,
        |j: int|
            x[64 * (j / data_per_block(guard_bands)) + data_slot(
                j % data_per_block(guard_bands),
                guard_bands,
            )],
    )
}

/// Collects the data points of each whole block of `blocks`, skipping guard
/// and pilot subcarriers.
pub fn data_symbols(blocks: &[Symbol], guard_bands: bool) -> (r: Vec<Symbol>)
    ensures
        r@ == block_data(blocks@, guard_bands),
{
    let per = data_len(guard_bands);
    let n = blocks.len() / FFT_LEN;
    let mut out: Vec<Symbol> = Vec::new();
    let mut b: usize = 0;
    while b < n
        invariant
            b <= n,
            n == blocks.len() / 64,
            per == data_per_block(guard_bands),
            out@.len() == b * per,
            forall|j: int|
                0 <= j < out@.len() ==> #[trigger] out@[j] == blocks@[64 * (j / per as int) + data_slot(
                    j % per as int,
                    guard_bands,
                )],
        decreases n - b,
    {
        let mut r: usize = 0;
        while r < per
            invariant
                b < n,
                n == blocks.len() / 64,
                r <= per,
                per == data_per_block(guard_bands),
                out@.len() == b * per + r,
                forall|j: int|
                    0 <= j < out@.len() ==> #[trigger] out@[j] == blocks@[64 * (j / per as int) + data_slot(
                        j % per as int,
                        guard_bands,
                    )],
            decreases per - r,
        {
            proof {
                lemma_slot_of_rank(r as int, guard_bands);
                lemma_fundamental_div_mod_converse(b * per + r, per as int, b as int, r as int);
            }
            let i = data_subcarrier(r, guard_bands);
            out.push(blocks[FFT_LEN * b + i]);
            r = r + 1;
        }
        proof {
            assert((b + 1) * per == b * per + per) by (nonlinear_arith);
        }
        b = b + 1;
    }
    assert(out@ =~= block_data(blocks@, guard_bands));
    out
}

/// Taking the data points out of the blocks that carry `s` gives `s` back,
/// followed by the zeros that filled the last block.
pub proof fn lemma_blocks_round_trip(s: Seq<Symbol>, guard_bands: bool)
    ensures
        block_data(blocks_of(s, guard_bands), guard_bands).len() >= s.len(),
        forall|j: int|
            0 <= j < block_data(blocks_of(s, guard_bands), guard_bands).len() ==> #[trigger] block_data(
                blocks_of(s, guard_bands),
                guard_bands,
            )[j] == if j < s.len() {
                s[j]
            } else {
                zero_symbol()
            },
{
    let per = data_per_block(guard_bands);
    let nb = num_blocks(s.len() as int, guard_bands);
    let x = blocks_of(s, guard_bands);
    let d = block_data(x, guard_bands);
    assert(x.len() / 64 == nb);
    assert(nb * per >= s.len()) by (nonlinear_arith)
        requires
            nb == (s.len() + per - 1) / per,
            per > 0,
    ;
    assert forall|j: int| 0 <= j < d.len() implies #[trigger] d[j] == if j < s.len() {
        s[j]
    } else {
        zero_symbol()
    } by {
        let b = j / per;
        let r = j % per;
        lemma_slot_of_rank(r, guard_bands);
        let t = 64 * b + data_slot(r, guard_bands);
        assert(b < nb) by (nonlinear_arith)
            requires
                b == j / per,
                0 <= j < nb * per,
                per > 0,
        ;
        assert(t / 64 == b);
        assert(t % 64 == data_slot(r, guard_bands));
        assert(j == b * per + r) by (nonlinear_arith)
            requires
                b == j / per,
                r == j % per as int,
                per > 0,
        ;
    }
}

} // verus!
