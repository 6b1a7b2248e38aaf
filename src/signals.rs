//! Rearrangements of sample sequences that do not look at the samples:
//! cyclic prefixes, cutting a capture into blocks, and FFT shifts.
use vstd::prelude::*;

verus! {

/// Samples copied from the end of a block to its front.
pub const PREFIX_LEN: usize = 16;

/// Samples in one block on the air: the prefix and the 64 IFFT outputs.
pub const BLOCK_LEN: usize = 80;

/// `s` rotated left by `m`: its elements from `m` on, then those before.
pub open spec fn rotated<T>(s: Seq<T>, m: nat) -> Seq<T> {
    s.subrange(m as int, s.len() as int) + s.subrange(0, m as int)
}

/// The block preceded by a copy of its last 16 samples.
pub open spec fn prefixed<T>(block: Seq<T>) -> Seq<T> {
    block.subrange(block.len() - PREFIX_LEN, block.len() as int) + block
}

fn copy_range<T: Copy>(s: &[T], from: usize, to: usize, out: &mut Vec<T>)
    requires
        from <= to <= s@.len(),
    ensures
        final(out)@ == old(out)@ + s@.subrange(from as int, to as int),
{
    let ghost start = old(out)@;
    let mut i: usize = from;
    while i < to
        invariant
            from <= i <= to,
            to <= s@.len(),
            out@ == start + s@.subrange(from as int, i as int),
        decreases to - i,
    {
        out.push(s[i]);
        proof {
            assert(s@.subrange(from as int, i + 1) =~= s@.subrange(from as int, i as int).push(s@[i as int]));
        }
        i = i + 1;
    }
}

/// Prepends the last 16 samples of a 64-sample block to it.
pub fn cyclic_prefix<T: Copy>(block: &[T]) -> (r: Vec<T>)
    requires
        block@.len() == 64,
    ensures
        r@ == prefixed(block@),
        r@.len() == BLOCK_LEN,
{
    let mut out: Vec<T> = Vec::with_capacity(BLOCK_LEN);
    copy_range(block, 64 - PREFIX_LEN, 64, &mut out);
    copy_range(block, 0, 64, &mut out);
    assert(block@.subrange(0, 64) =~= block@);
    out
}

/// Drops the 16-sample prefix of an 80-sample block.
pub fn strip_cyclic_prefix<T: Copy>(block: &[T]) -> (r: Vec<T>)
    requires
        block@.len() == BLOCK_LEN,
    ensures
        r@ == block@.subrange(PREFIX_LEN as int, BLOCK_LEN as int),
{
    let mut out: Vec<T> = Vec::with_capacity(64);
    copy_range(block, PREFIX_LEN, BLOCK_LEN, &mut out);
    assert(out@ =~= block@.subrange(PREFIX_LEN as int, BLOCK_LEN as int));
    out
}

/// Stripping the prefix of a prefixed block gives the block back.
pub proof fn lemma_prefix_round_trip<T>(block: Seq<T>)
    requires
        block.len() == 64,
    ensures
        prefixed(block).subrange(PREFIX_LEN as int, BLOCK_LEN as int) == block,
{
    assert(prefixed(block).subrange(PREFIX_LEN as int, BLOCK_LEN as int) =~= block);
}

/// `remainder` followed by copies of `fill` up to 80 samples.
pub fn pad_chunk<T: Copy>(remainder: &[T], fill: T) -> (r: Vec<T>)
    requires
        remainder@.len() <= BLOCK_LEN,
    ensures
        r@ == remainder@ + Seq::new((BLOCK_LEN - remainder@.len()) as nat, |k: int| fill),
{
    let mut out: Vec<T> = Vec::with_capacity(BLOCK_LEN);
    copy_range(remainder, 0, remainder.len(), &mut out);
    assert(remainder@.subrange(0, remainder@.len() as int) =~= remainder@);
    let ghost head = out@;
    while out.len() < BLOCK_LEN
        invariant
            head == remainder@,
            remainder@.len() <= out@.len() <= BLOCK_LEN,
            out@ =~= head + Seq::new((out@.len() - head.len()) as nat, |k: int| fill),
        decreases BLOCK_LEN - out@.len(),
    {
        out.push(fill);
    }
    out
}

/// Chunk `c` of `s` cut into 80-sample blocks, the last one padded with `fill`.
pub open spec fn block_chunk<T>(s: Seq<T>, c: int, fill: T) -> Seq<T> {
    Seq::new(80, |k: int| if 80 * c + k < s.len() { s[80 * c + k] } else { fill })
}

/// Cuts a capture into 80-sample blocks, padding the last one with `fill`.
pub fn split_into_chunks<T: Copy>(samples: Vec<T>, fill: T) -> (r: Vec<Vec<T>>)
    ensures
        r@.len() == (samples@.len() + 79) / 80,
        forall|c: int| 0 <= c < r@.len() ==> #[trigger] r@[c]@ == block_chunk(samples@, c, fill),
{
    let s = samples.as_slice();
    let len = s.len();
    let whole = len / BLOCK_LEN;
    let mut out: Vec<Vec<T>> = Vec::new();
    let mut c: usize = 0;
    while c < whole
        invariant
            c <= whole,
            whole == len / 80,
            len == s@.len(),
            out@.len() == c,
            forall|j: int| 0 <= j < c ==> #[trigger] out@[j]@ == block_chunk(s@, j, fill),
        decreases whole - c,
    {
        let mut chunk: Vec<T> = Vec::with_capacity(BLOCK_LEN);
        copy_range(s, BLOCK_LEN * c, BLOCK_LEN * c + BLOCK_LEN, &mut chunk);
        assert(chunk@ =~= block_chunk(s@, c as int, fill));
        out.push(chunk);
        c = c + 1;
    }
    if len % BLOCK_LEN != 0 {
        let mut rest: Vec<T> = Vec::new();
        copy_range(s, BLOCK_LEN * whole, len, &mut rest);
        let chunk = pad_chunk(rest.as_slice(), fill);
        assert(chunk@ =~= block_chunk(s@, whole as int, fill));
        out.push(chunk);
    }
    out
}

fn rotate_left<T: Copy>(data: &mut Vec<T>, m: usize)
    requires
        m <= old(data)@.len(),
    ensures
        final(data)@ == rotated(old(data)@, m as nat),
{
    let mut out: Vec<T> = Vec::with_capacity(data.len());
    let n = data.len();
    copy_range(data.as_slice(), m, n, &mut out);
    copy_range(data.as_slice(), 0, m, &mut out);
    *data = out;
}

/// Swaps the halves of a spectrum so that frequency zero lands in the middle:
/// the samples from `(n + 1) / 2` on come first.
pub fn fft_shift<T: Copy>(data: &mut Vec<T>)
    ensures
        final(data)@ == rotated(old(data)@, (old(data)@.len() + 1) / 2),
{
    let n = data.len();
    let mid = n / 2 + n % 2;
    rotate_left(data, mid);
}

/// Undoes `fft_shift`: the samples from `n / 2` on come first.
pub fn ifft_shift<T: Copy>(data: &mut Vec<T>)
    ensures
        final(data)@ == rotated(old(data)@, old(data)@.len() / 2),
{
    let n = data.len();
    rotate_left(data, n / 2);
}

proof fn lemma_rotations_compose<T>(s: Seq<T>, a: nat, b: nat)
    requires
        a <= s.len(),
        b <= s.len(),
        a + b == s.len(),
    ensures
        rotated(rotated(s, a), b) == s,
{
    let t = rotated(s, a);
    assert(t.len() == s.len());
    assert(rotated(t, b) =~= s);
}

/// `ifft_shift` undoes `fft_shift`, whatever the length.
pub proof fn lemma_ifft_shift_undoes_fft_shift<T>(x: Seq<T>)
    ensures
        rotated(rotated(x, (x.len() + 1) / 2), x.len() / 2) == x,
{
    lemma_rotations_compose(x, (x.len() + 1) / 2, x.len() / 2);
}

/// On an even length, `fft_shift` applied twice changes nothing.
pub proof fn lemma_fft_shift_twice_even<T>(x: Seq<T>)
    requires
        x.len() % 2 == 0,
    ensures
        rotated(rotated(x, (x.len() + 1) / 2), (x.len() + 1) / 2) == x,
{
    lemma_rotations_compose(x, (x.len() + 1) / 2, (x.len() + 1) / 2);
}

} // verus!
