//! Modular arithmetic on symbols and the four-symbol block permutation.

use vstd::prelude::*;

verus! {

/// Number of symbols in one block.
pub const CHUNK_SIZE: usize = 4;

/// Sum of two symbols modulo `m`.
pub open spec fn add_mod(x: int, y: int, m: int) -> int {
    (x + y) % m
}

/// Difference of two symbols modulo `m`, always in `0..m`.
///
/// For `x` and `y` below `m` this is `x - y` when `x >= y` and
/// `x - y + m` otherwise; see [`lemma_sub_mod_wraps`].
pub open spec fn sub_mod(x: int, y: int, m: int) -> int {
    (x - y) % m
}

/// The forward permutation of a block `[a, b, c, d]` modulo `m`.
pub open spec fn mix_block(block: Seq<u8>, m: int) -> Seq<u8>
    recommends
        block.len() == 4,
        0 < m <= 255,
{
    let a = block[0] as int;
    let b = block[1] as int;
    let c = block[2] as int;
    let d = block[3] as int;
    let ab = add_mod(a, b, m);
    let cd = add_mod(c, d, m);
    let b2 = add_mod(ab, c, m);
    let d2 = add_mod(cd, b, m);
    let a2 = add_mod(ab, d2, m);
    let c2 = add_mod(cd, a2, m);
    seq![a2 as u8, b2 as u8, c2 as u8, d2 as u8]
}

/// The reverse permutation of a block `[a, b, c, d]` modulo `m`.
pub open spec fn unmix_block(block: Seq<u8>, m: int) -> Seq<u8>
    recommends
        block.len() == 4,
        0 < m <= 255,
{
    let a = block[0] as int;
    let b = block[1] as int;
    let c = block[2] as int;
    let d = block[3] as int;
    let c_mid = sub_mod(c, a, m);
    let a_mid = sub_mod(a, d, m);
    let b2 = sub_mod(d, c_mid, m);
    let a2 = sub_mod(a_mid, b2, m);
    let c2 = sub_mod(b, a_mid, m);
    let d2 = sub_mod(c_mid, c2, m);
    seq![a2 as u8, b2 as u8, c2 as u8, d2 as u8]
}

/// A sum modulo `m` lies in `0..m`, and for operands below `m` it wraps at
/// most once.
pub proof fn lemma_add_mod_wraps(x: int, y: int, m: int)
    requires
        0 < m,
        0 <= x,
        0 <= y,
    ensures
        0 <= add_mod(x, y, m) < m,
        x < m && y < m ==> add_mod(x, y, m) == if x + y < m {
            x + y
        } else {
            x + y - m
        },
{
    assert(0 <= (x + y) % m < m) by (nonlinear_arith)
        requires
            0 < m,
    ;
    if x < m && y < m {
        if x + y < m {
            assert((x + y) % m == x + y) by (nonlinear_arith)
                requires
                    0 <= x + y < m,
            ;
        } else {
            assert((x + y) % m == x + y - m) by (nonlinear_arith)
                requires
                    m <= x + y < 2 * m,
            ;
        }
    }
}

/// A difference modulo `m` lies in `0..m`, and for operands below `m` it is
/// the wrap-aware subtraction.
pub proof fn lemma_sub_mod_wraps(x: int, y: int, m: int)
    requires
        0 < m,
    ensures
        0 <= sub_mod(x, y, m) < m,
        0 <= x < m && 0 <= y < m ==> sub_mod(x, y, m) == if x >= y {
            x - y
        } else {
            x - y + m
        },
{
    assert(0 <= (x - y) % m < m) by (nonlinear_arith)
        requires
            0 < m,
    ;
    if 0 <= x < m && 0 <= y < m {
        if x >= y {
            assert((x - y) % m == x - y) by (nonlinear_arith)
                requires
                    0 <= x - y < m,
            ;
        } else {
            assert((x - y) % m == x - y + m) by (nonlinear_arith)
                requires
                    -m <= x - y < 0,
            ;
        }
    }
}

/// Adds two symbols modulo `m`.
pub fn add_symbols(x: u8, y: u8, m: u8) -> (r: u8)
    requires
        m > 0,
    ensures
        r as int == add_mod(x as int, y as int, m as int),
        r < m,
{
    proof {
        lemma_add_mod_wraps(x as int, y as int, m as int);
    }
    let wide: u16 = (x as u16 + y as u16) % (m as u16);
    wide as u8
}

/// Subtracts `y` from `x` modulo `m`.
pub fn sub_symbols(x: u8, y: u8, m: u8) -> (r: u8)
    requires
        m > 0,
    ensures
        r as int == sub_mod(x as int, y as int, m as int),
        r < m,
{
    let xr: u8 = x % m;
    let yr: u8 = y % m;
    proof {
        lemma_sub_mod_wraps(x as int, y as int, m as int);
        lemma_sub_mod_wraps(xr as int, yr as int, m as int);
        vstd::arithmetic::div_mod::lemma_sub_mod_noop(x as int, y as int, m as int);
    }
    if xr >= yr {
        xr - yr
    } else {
        xr + (m - yr)
    }
}

/// The forward permutation applied to the first block of `buffer`; a buffer
/// shorter than a block is left as it is.
pub open spec fn mix_prefix(buffer: Seq<u8>, m: int) -> Seq<u8> {
    if buffer.len() < 4 {
        buffer
    } else {
        mix_block(buffer.take(4), m) + buffer.skip(4)
    }
}

/// The reverse permutation applied to the first block of `buffer`; a buffer
/// shorter than a block is left as it is.
pub open spec fn unmix_prefix(buffer: Seq<u8>, m: int) -> Seq<u8> {
    if buffer.len() < 4 {
        buffer
    } else {
        unmix_block(buffer.take(4), m) + buffer.skip(4)
    }
}

/// Mixes the first four symbols of `buffer` in place.
pub fn swap_chunk(buffer: &mut [u8], range_mod: u8)
    requires
        old(buffer)@.len() >= 4 ==> range_mod > 0,
    ensures
        final(buffer)@ == mix_prefix(old(buffer)@, range_mod as int),
{
    if buffer.len() < CHUNK_SIZE {
        return ;
    }
    let a: u8 = buffer[0];
    let b: u8 = buffer[1];
    let c: u8 = buffer[2];
    let d: u8 = buffer[3];

    let ab: u8 = add_symbols(a, b, range_mod);
    let cd: u8 = add_symbols(c, d, range_mod);

    let b2: u8 = add_symbols(ab, c, range_mod);
    let d2: u8 = add_symbols(cd, b, range_mod);
    let a2: u8 = add_symbols(ab, d2, range_mod);
    let c2: u8 = add_symbols(cd, a2, range_mod);
    buffer[1] = b2;
    buffer[3] = d2;
    buffer[0] = a2;
    buffer[2] = c2;
    assert(buffer@ =~= mix_prefix(old(buffer)@, range_mod as int));
}

/// Undoes [`swap_chunk`] on the first four symbols of `buffer` in place.
pub fn reverse_chunk_swap(buffer: &mut [u8], range_mod: u8)
    requires
        old(buffer)@.len() >= 4 ==> range_mod > 0,
    ensures
        final(buffer)@ == unmix_prefix(old(buffer)@, range_mod as int),
{
    if buffer.len() < CHUNK_SIZE {
        return ;
    }
    let a: u8 = buffer[0];
    let b: u8 = buffer[1];
    let c: u8 = buffer[2];
    let d: u8 = buffer[3];

    let c_unlinked: u8 = sub_symbols(c, a, range_mod);
    let a_unlinked: u8 = sub_symbols(a, d, range_mod);

    let b2: u8 = sub_symbols(d, c_unlinked, range_mod);
    let a2: u8 = sub_symbols(a_unlinked, b2, range_mod);
    let c2: u8 = sub_symbols(b, a_unlinked, range_mod);
    let d2: u8 = sub_symbols(c_unlinked, c2, range_mod);
    buffer[1] = b2;
    buffer[0] = a2;
    buffer[2] = c2;
    buffer[3] = d2;
    assert(buffer@ =~= unmix_prefix(old(buffer)@, range_mod as int));
}

/// Every symbol of a mixed block lies below the modulus.
pub proof fn lemma_mix_block_in_range(block: Seq<u8>, m: int)
    requires
        block.len() == 4,
        0 < m <= 255,
    ensures
        mix_block(block, m).len() == 4,
        forall|i: int| 0 <= i < 4 ==> (#[trigger] mix_block(block, m)[i] as int) < m,
{
    let a = block[0] as int;
    let b = block[1] as int;
    let c = block[2] as int;
    let d = block[3] as int;
    lemma_add_mod_wraps(a, b, m);
    lemma_add_mod_wraps(c, d, m);
    let ab = add_mod(a, b, m);
    let cd = add_mod(c, d, m);
    lemma_add_mod_wraps(ab, c, m);
    lemma_add_mod_wraps(cd, b, m);
    let d2 = add_mod(cd, b, m);
    lemma_add_mod_wraps(ab, d2, m);
    let a2 = add_mod(ab, d2, m);
    lemma_add_mod_wraps(cd, a2, m);
}

/// The reverse permutation undoes the forward one: for every modulus from 1
/// to 255 and every block of four symbols below the modulus, unmixing the
/// mixed block gives the block back.
pub proof fn lemma_unmix_inverts_mix(block: Seq<u8>, m: int)
    requires
        1 <= m <= 255,
        block.len() == 4,
        forall|i: int| 0 <= i < 4 ==> (#[trigger] block[i] as int) < m,
    ensures
        unmix_block(mix_block(block, m), m) == block,
{
    let a = block[0] as int;
    let b = block[1] as int;
    let c = block[2] as int;
    let d = block[3] as int;
    assert(a < m && b < m && c < m && d < m);
    lemma_add_mod_wraps(a, b, m);
    lemma_add_mod_wraps(c, d, m);
    let ab = add_mod(a, b, m);
    let cd = add_mod(c, d, m);
    lemma_add_mod_wraps(ab, c, m);
    lemma_add_mod_wraps(cd, b, m);
    let b2 = add_mod(ab, c, m);
    let d2 = add_mod(cd, b, m);
    lemma_add_mod_wraps(ab, d2, m);
    let a2 = add_mod(ab, d2, m);
    lemma_add_mod_wraps(cd, a2, m);
    let c2 = add_mod(cd, a2, m);

    let mixed = mix_block(block, m);
    assert(mixed[0] as int == a2 && mixed[1] as int == b2 && mixed[2] as int == c2
        && mixed[3] as int == d2);

    lemma_sub_mod_wraps(c2, a2, m);
    let c_mid = sub_mod(c2, a2, m);
    assert(c_mid == cd);
    lemma_sub_mod_wraps(a2, d2, m);
    let a_mid = sub_mod(a2, d2, m);
    assert(a_mid == ab);
    lemma_sub_mod_wraps(d2, c_mid, m);
    assert(sub_mod(d2, c_mid, m) == b);
    lemma_sub_mod_wraps(a_mid, b, m);
    assert(sub_mod(a_mid, b, m) == a);
    lemma_sub_mod_wraps(b2, a_mid, m);
    assert(sub_mod(b2, a_mid, m) == c);
    lemma_sub_mod_wraps(c_mid, c, m);
    assert(sub_mod(c_mid, c, m) == d);
    assert(unmix_block(mixed, m) =~= block);
}

} // verus!
