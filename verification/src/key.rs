//! Credentials: the key, the initialization value and the keystream that is
//! derived from them.

use vstd::prelude::*;
use crate::block::{add_mod, add_symbols, CHUNK_SIZE};
use crate::error::{CipherError, ParseFailure};
use crate::text::chars_of;

verus! {

/// Tells whether a raw key has the length of one block.
pub fn verify_key(key: &[u8]) -> (ok: bool)
    ensures
        ok == (key@.len() == 4),
{
    key.len() == CHUNK_SIZE
}

/// The key-mix permutation of a block `[a, b, c, d]` modulo `m`.
pub open spec fn key_mix_block(block: Seq<u8>, m: int) -> Seq<u8>
    recommends
        block.len() == 4,
        0 < m <= 255,
{
    let a = block[0] as int;
    let b = block[1] as int;
    let c = block[2] as int;
    let d = block[3] as int;
    let a2 = add_mod(a, b, m);
    let b2 = add_mod(a2, c, m);
    let c2 = add_mod(c, d, m);
    let d2 = add_mod(c2, b, m);
    seq![a2 as u8, b2 as u8, c2 as u8, d2 as u8]
}

/// The key-mix permutation applied to the first block of `buffer`; a buffer
/// shorter than a block is left as it is.
pub open spec fn key_mix_prefix(buffer: Seq<u8>, m: int) -> Seq<u8> {
    if buffer.len() < 4 {
        buffer
    } else {
        key_mix_block(buffer.take(4), m) + buffer.skip(4)
    }
}

/// Applies the key-mix permutation to the first four symbols of `buffer`.
pub fn swap_key(buffer: &mut [u8], range_mod: u8)
    requires
        old(buffer)@.len() >= 4 ==> range_mod > 0,
    ensures
        final(buffer)@ == key_mix_prefix(old(buffer)@, range_mod as int),
{
    if buffer.len() < CHUNK_SIZE {
        return ;
    }
    let a: u8 = buffer[0];
    let b: u8 = buffer[1];
    let c: u8 = buffer[2];
    let d: u8 = buffer[3];

    let a2: u8 = add_symbols(a, b, range_mod);
    let b2: u8 = add_symbols(a2, c, range_mod);
    let c2: u8 = add_symbols(c, d, range_mod);
    let d2: u8 = add_symbols(c2, b, range_mod);
    buffer[0] = a2;
    buffer[1] = b2;
    buffer[2] = c2;
    buffer[3] = d2;
    assert(buffer@ =~= key_mix_prefix(old(buffer)@, range_mod as int));
}

/// The first bound that `key` or `iv` breaks, if any: the key symbols are
/// looked at in order, then the initialization value.
pub open spec fn size_violation(key: Seq<u8>, iv: u8, bound: u8) -> Option<CipherError>
    recommends
        key.len() == 4,
{
    if key[0] >= bound {
        Some(CipherError::KeyOutOfBounds(0, bound))
    } else if key[1] >= bound {
        Some(CipherError::KeyOutOfBounds(1, bound))
    } else if key[2] >= bound {
        Some(CipherError::KeyOutOfBounds(2, bound))
    } else if key[3] >= bound {
        Some(CipherError::KeyOutOfBounds(3, bound))
    } else if iv >= bound {
        Some(CipherError::IVOutOfBounds(bound))
    } else {
        None
    }
}

/// Number of symbols in the keystream for `blocks` blocks: the key itself is
/// always there.
pub open spec fn keystream_len(blocks: nat) -> nat {
    if blocks <= 1 {
        4
    } else {
        4 * blocks
    }
}

/// A block with the initialization value added to each of its symbols,
/// modulo `m`.
pub open spec fn with_iv(block: Seq<u8>, iv: u8, m: int) -> Seq<u8>
    recommends
        block.len() == 4,
        0 < m <= 255,
{
    Seq::new(4, |j: int| add_mod(block[j] as int, iv as int, m) as u8)
}

/// Block `k` of the keystream: block 0 is the key, and every later block is
/// the key mix of the block before it with the initialization value added
/// to each symbol.
pub open spec fn stream_block(key: Seq<u8>, iv: u8, m: int, k: nat) -> Seq<u8>
    recommends
        key.len() == 4,
        0 < m <= 255,
    decreases k,
{
    if k == 0 {
        key
    } else {
        key_mix_block(with_iv(stream_block(key, iv, m, (k - 1) as nat), iv, m), m)
    }
}

/// The keystream for `blocks` blocks, block after block.
pub open spec fn keystream(key: Seq<u8>, iv: u8, m: int, blocks: nat) -> Seq<u8> {
    Seq::new(keystream_len(blocks), |i: int| stream_block(key, iv, m, (i / 4) as nat)[i % 4])
}

/// Credentials of the cipher: a key of four symbols and an initialization
/// value.
#[derive(Debug, PartialEq)]
pub struct Credentials {
    pub(crate) key: Vec<u8>,
    pub(crate) iv: u8,
}

impl Credentials {
    /// The key holds exactly one block.
    #[verifier::type_invariant]
    pub closed spec fn wf(self) -> bool {
        self.key@.len() == 4
    }

    /// The key symbols.
    pub closed spec fn spec_key(self) -> Seq<u8> {
        self.key@
    }

    /// The initialization value.
    pub closed spec fn spec_iv(self) -> u8 {
        self.iv
    }

    /// Every key symbol and the initialization value lie below `bound`.
    pub open spec fn fits(self, bound: u8) -> bool {
        size_violation(self.spec_key(), self.spec_iv(), bound) is None
    }

    /// Well-formed credentials hold a key of four symbols.
    pub proof fn lemma_key_len(self)
        requires
            self.wf(),
        ensures
            self.spec_key().len() == 4,
    {
    }

    pub fn new(key: &[u8], iv: u8) -> (credentials: Self)
        requires
            key@.len() == 4,
        ensures
            credentials.wf(),
            credentials.spec_key() == key@,
            credentials.spec_iv() == iv,
    {
        let mut symbols: Vec<u8> = Vec::with_capacity(CHUNK_SIZE);
        let mut i: usize = 0;
        while i < CHUNK_SIZE
            invariant
                i <= 4,
                key@.len() == 4,
                symbols@ == key@.take(i as int),
            decreases 4 - i,
        {
            symbols.push(key[i]);
            assert(key@.take(i + 1) =~= key@.take(i as int).push(key@[i as int]));
            i += 1;
        }
        assert(symbols@ =~= key@);
        Credentials { key: symbols, iv }
    }

    /// Checks that no key symbol and not the initialization value reaches
    /// the table size: beyond it the modular arithmetic would not invert.
    pub fn verify_credentials_size(&self, encoding_range: u8) -> (r: Result<(), CipherError>)
        ensures
            r == match size_violation(self.spec_key(), self.spec_iv(), encoding_range) {
                Some(e) => Err::<(), CipherError>(e),
                None => Ok::<(), CipherError>(()),
            },
    {
        proof {
            use_type_invariant(self);
        }
        let mut i: u8 = 0;
        while i < 4
            invariant
                i <= 4,
                self.key@.len() == 4,
                forall|j: int| 0 <= j < i ==> self.key@[j] < encoding_range,
            decreases 4 - i,
        {
            if self.key[i as usize] >= encoding_range {
                return Err(CipherError::KeyOutOfBounds(i, encoding_range));
            }
            i += 1;
        }
        if self.iv >= encoding_range {
            return Err(CipherError::IVOutOfBounds(encoding_range));
        }
        Ok(())
    }

    /// Fills `buffer` with the keystream for `size` blocks.
    pub fn expand_key(&self, buffer: &mut Vec<u8>, size: usize, range_mod: u8)
        requires
            size > 1 ==> range_mod > 0,
            size * 4 <= usize::MAX,
        ensures
            final(buffer)@ == keystream(
                self.spec_key(),
                self.spec_iv(),
                range_mod as int,
                size as nat,
            ),
    {
        proof {
            use_type_invariant(self);
        }
        buffer.clear();
        let mut i: usize = 0;
        while i < CHUNK_SIZE
            invariant
                i <= 4,
                self.key@.len() == 4,
                buffer@ == self.key@.take(i as int),
            decreases 4 - i,
        {
            buffer.push(self.key[i]);
            assert(self.key@.take(i + 1) =~= self.key@.take(i as int).push(self.key@[i as int]));
            i += 1;
        }
        let ghost key = self.key@;
        let ghost m = range_mod as int;
        assert(buffer@ =~= keystream(key, self.iv, m, 1));
        if size <= 1 {
            return ;
        }
        let mut done: usize = 1;
        while done < size
            invariant
                range_mod > 0,
                m == range_mod as int,
                key.len() == 4,
                size * 4 <= usize::MAX,
                1 <= done <= size,
                buffer.len() == 4 * done,
                forall|j: int|
                    0 <= j < buffer.len() ==> buffer@[j] == stream_block(
                        key,
                        self.iv,
                        m,
                        (j / 4) as nat,
                    )[j % 4],
            decreases size - done,
        {
            let at: usize = (done - 1) * CHUNK_SIZE;
            let ghost before = stream_block(key, self.iv, m, (done - 1) as nat);
            let ghost filled = buffer@;
            let mut key_with_iv: Vec<u8> = Vec::with_capacity(CHUNK_SIZE);
            let mut j: usize = 0;
            while j < CHUNK_SIZE
                invariant
                    j <= 4,
                    range_mod > 0,
                    m == range_mod as int,
                    at + 4 == buffer.len(),
                    buffer@ == filled,
                    key_with_iv@.len() == j,
                    forall|i: int| 0 <= i < 4 ==> filled[at + i] == before[i],
                    forall|i: int|
                        0 <= i < j ==> key_with_iv@[i] == with_iv(before, self.iv, m)[i],
                decreases 4 - j,
            {
                key_with_iv.push(add_symbols(buffer[at + j], self.iv, range_mod));
                j += 1;
            }
            assert(key_with_iv@ =~= with_iv(before, self.iv, m));
            assert(key_with_iv@.take(4) =~= key_with_iv@ && key_with_iv@.skip(4) =~= Seq::<
                u8,
            >::empty());
            swap_key(key_with_iv.as_mut_slice(), range_mod);
            assert(key_with_iv@ =~= stream_block(key, self.iv, m, done as nat));
            buffer.push(key_with_iv[0]);
            buffer.push(key_with_iv[1]);
            buffer.push(key_with_iv[2]);
            buffer.push(key_with_iv[3]);
            done += 1;
        }
        assert(buffer@ =~= keystream(key, self.iv, m, size as nat));
    }
}

/// Tells whether `c` is a decimal digit.
pub open spec fn is_digit(c: char) -> bool {
    '0' <= c <= '9'
}

/// The number that a string of decimal digits denotes.
pub open spec fn decimal_value(digits: Seq<char>) -> int
    decreases digits.len(),
{
    if digits.len() == 0 {
        0
    } else {
        10 * decimal_value(digits.drop_last()) + (digits.last() as int - '0' as int)
    }
}

/// The digits of a decimal string: what follows an optional leading `+`.
pub open spec fn digits_of(text: Seq<char>) -> Seq<char> {
    if text.len() > 0 && text[0] == '+' {
        text.skip(1)
    } else {
        text
    }
}

/// The byte that a decimal string denotes, or why it denotes none. A string
/// denotes a byte when it holds one or more decimal digits, after an
/// optional `+`, whose number is at most 255.
pub open spec fn parse_byte_spec(text: Seq<char>) -> Result<u8, ParseFailure> {
    let digits = digits_of(text);
    if text.len() == 0 {
        Err(ParseFailure::Empty)
    } else if digits.len() == 0 || exists|i: int| 0 <= i < digits.len() && !is_digit(digits[i]) {
        Err(ParseFailure::InvalidDigit)
    } else if decimal_value(digits) > 255 {
        Err(ParseFailure::Overflow)
    } else {
        Ok(decimal_value(digits) as u8)
    }
}

/// A prefix of a string of digits denotes no larger a number than the whole.
pub proof fn lemma_decimal_value_grows(digits: Seq<char>, k: int)
    requires
        0 <= k <= digits.len(),
        forall|i: int| 0 <= i < digits.len() ==> is_digit(digits[i]),
    ensures
        0 <= decimal_value(digits.take(k)) <= decimal_value(digits),
    decreases digits.len(),
{
    if k == digits.len() {
        assert(digits.take(k) =~= digits);
        if digits.len() > 0 {
            lemma_decimal_value_grows(digits.drop_last(), k - 1);
        }
    } else {
        lemma_decimal_value_grows(digits.drop_last(), k);
        assert(digits.drop_last().take(k) =~= digits.take(k));
        assert(is_digit(digits.last()));
    }
}

/// Reads a decimal string as a byte.
pub fn parse_byte(text: &[char]) -> (r: Result<u8, ParseFailure>)
    ensures
        r == parse_byte_spec(text@),
{
    let n: usize = text.len();
    if n == 0 {
        return Err(ParseFailure::Empty);
    }
    let start: usize = if text[0] == '+' {
        1
    } else {
        0
    };
    let ghost digits = digits_of(text@);
    assert(digits =~= text@.skip(start as int));
    if start == n {
        return Err(ParseFailure::InvalidDigit);
    }
    let mut i: usize = start;
    while i < n
        invariant
            start <= i <= n,
            n == text@.len(),
            digits == text@.skip(start as int),
            digits == digits_of(text@),
            forall|j: int| 0 <= j < i - start ==> is_digit(digits[j]),
        decreases n - i,
    {
        let c: char = text[i];
        if c < '0' || c > '9' {
            assert(!is_digit(digits[i - start]));
            return Err(ParseFailure::InvalidDigit);
        }
        i += 1;
    }
    let mut value: u32 = 0;
    let mut k: usize = start;
    assert(digits.take(0) =~= Seq::<char>::empty());
    while k < n
        invariant
            start <= k <= n,
            n == text@.len(),
            digits == text@.skip(start as int),
            digits == digits_of(text@),
            forall|j: int| 0 <= j < digits.len() ==> is_digit(digits[j]),
            value == decimal_value(digits.take(k - start)),
            value <= 255,
        decreases n - k,
    {
        let c: char = text[k];
        assert(is_digit(digits[k - start]));
        let digit: u32 = c as u32 - '0' as u32;
        let ghost read = digits.take(k + 1 - start);
        assert(read.drop_last() =~= digits.take(k - start));
        assert(read.last() == c);
        value = value * 10 + digit;
        assert(value == decimal_value(read));
        if value > 255 {
            proof {
                lemma_decimal_value_grows(digits, k + 1 - start);
            }
            return Err(ParseFailure::Overflow);
        }
        k += 1;
    }
    assert(digits.take(n - start) =~= digits);
    Ok(value as u8)
}

/// Number of chunks in a key string. A chunk holds two characters; what is
/// left of a string of odd length is a last chunk of one character, which
/// is read like the others before the string is refused for its length.
pub open spec fn chunk_count(key: Seq<char>) -> int {
    (key.len() as int + 1) / 2
}

/// Chunk `k` of a key string.
pub open spec fn key_chunk(key: Seq<char>, k: int) -> Seq<char> {
    key.subrange(
        2 * k,
        if 2 * k + 2 <= key.len() {
            2 * k + 2
        } else {
            key.len() as int
        },
    )
}

/// The bytes that the chunks of a key string denote, from chunk `from` on,
/// or the failure of the first chunk that denotes none.
pub open spec fn parse_chunks(key: Seq<char>, from: int) -> Result<Seq<u8>, ParseFailure>
    decreases chunk_count(key) - from,
{
    if from < 0 || from >= chunk_count(key) {
        Ok(Seq::empty())
    } else {
        match parse_byte_spec(key_chunk(key, from)) {
            Err(failure) => Err(failure),
            Ok(symbol) => match parse_chunks(key, from + 1) {
                Err(failure) => Err(failure),
                Ok(rest) => Ok(seq![symbol] + rest),
            },
        }
    }
}

/// The key and the initialization value that two decimal strings denote.
/// The chunks of the key are read first; then the key string must consist
/// of four chunks of two characters; the initialization value is read last.
pub open spec fn parsed_credentials(key: Seq<char>, iv: Seq<char>) -> Result<
    (Seq<u8>, u8),
    CipherError,
> {
    match parse_chunks(key, 0) {
        Err(failure) => Err(CipherError::ParseIntError(failure)),
        Ok(symbols) => if key.len() != 8 {
            Err(CipherError::InvalidKey)
        } else {
            match parse_byte_spec(iv) {
                Err(failure) => Err(CipherError::ParseIntError(failure)),
                Ok(value) => Ok((symbols, value)),
            }
        },
    }
}

/// What [`parse_chunks`] gives from chunk `from` on, behind the symbols
/// already read.
pub open spec fn chunks_after(done: Seq<u8>, key: Seq<char>, from: int) -> Result<
    Seq<u8>,
    ParseFailure,
> {
    match parse_chunks(key, from) {
        Err(failure) => Err(failure),
        Ok(rest) => Ok(done + rest),
    }
}

/// Reads a key string and an initialization value string as credentials.
pub fn parse_credentials(key: &str, iv: &str) -> (r: Result<Credentials, CipherError>)
    ensures
        match r {
            Ok(credentials) => credentials.wf() && parsed_credentials(key@, iv@) == Ok::<
                (Seq<u8>, u8),
                CipherError,
            >((credentials.spec_key(), credentials.spec_iv())),
            Err(e) => parsed_credentials(key@, iv@) == Err::<(Seq<u8>, u8), CipherError>(e),
        },
{
    let key_as_chars: Vec<char> = chars_of(key);
    let n: usize = key_as_chars.len();
    let mut parsed_key: Vec<u8> = Vec::new();
    let mut at: usize = 0;
    let ghost mut k: int = 0;
    assert(chunks_after(parsed_key@, key@, 0) =~= parse_chunks(key@, 0)) by {
        match parse_chunks(key@, 0) {
            Ok(rest) => {
                assert(parsed_key@ + rest =~= rest);
            },
            Err(_) => {},
        }
    }
    while at < n
        invariant
            key_as_chars@ == key@,
            n == key@.len(),
            at <= n,
            at == if 2 * k <= n {
                2 * k
            } else {
                n as int
            },
            0 <= k,
            2 * k <= n + 1,
            parsed_key@.len() == k,
            chunks_after(parsed_key@, key@, k) == parse_chunks(key@, 0),
        decreases n - at,
    {
        let end: usize = if n - at >= 2 {
            at + 2
        } else {
            n
        };
        let chunk: &[char] = vstd::slice::slice_subrange(key_as_chars.as_slice(), at, end);
        assert(chunk@ == key_chunk(key@, k));
        let ghost before = parsed_key@;
        match parse_byte(chunk) {
            Err(failure) => {
                return Err(CipherError::ParseIntError(failure));
            },
            Ok(symbol) => {
                parsed_key.push(symbol);
                proof {
                    match parse_chunks(key@, k + 1) {
                        Ok(rest) => {
                            assert(before + (seq![symbol] + rest) =~= before.push(symbol) + rest);
                        },
                        Err(_) => {},
                    }
                }
            },
        }
        at = end;
        proof {
            k = k + 1;
        }
    }
    assert(parse_chunks(key@, 0) == Ok::<Seq<u8>, ParseFailure>(parsed_key@)) by {
        assert(k >= chunk_count(key@));
        assert(parsed_key@ + Seq::<u8>::empty() =~= parsed_key@);
    }
    if n != 2 * CHUNK_SIZE {
        return Err(CipherError::InvalidKey);
    }
    assert(parsed_key@.len() == 4);
    let iv_as_chars: Vec<char> = chars_of(iv);
    match parse_byte(iv_as_chars.as_slice()) {
        Err(failure) => Err(CipherError::ParseIntError(failure)),
        Ok(value) => Ok(Credentials { key: parsed_key, iv: value }),
    }
}

/// The keystream depends on nothing but the key, the initialization value,
/// the modulus and the number of blocks, and it begins with the key.
pub proof fn lemma_keystream_starts_with_key(key: Seq<u8>, iv: u8, m: int, blocks: nat)
    requires
        key.len() == 4,
    ensures
        keystream(key, iv, m, blocks).len() == keystream_len(blocks),
        keystream(key, iv, m, blocks).take(4) == key,
{
    assert(keystream(key, iv, m, blocks).take(4) =~= key);
}

/// Credentials with the same key and the same initialization value give the
/// same keystream.
pub proof fn lemma_keystream_deterministic(a: Credentials, b: Credentials, m: int, blocks: nat)
    requires
        a.spec_key() == b.spec_key(),
        a.spec_iv() == b.spec_iv(),
    ensures
        keystream(a.spec_key(), a.spec_iv(), m, blocks) == keystream(
            b.spec_key(),
            b.spec_iv(),
            m,
            blocks,
        ),
{
}

/// Credentials are accepted exactly when every key symbol and the
/// initialization value lie below the bound. A key symbol equal to the
/// bound is reported with its index, an initialization value equal to the
/// bound is reported where the key fits, and symbols one below the bound
/// are accepted.
pub proof fn lemma_bounds_validation(key: Seq<u8>, iv: u8, bound: u8)
    requires
        key.len() == 4,
    ensures
        size_violation(key, iv, bound) is None <==> (forall|i: int|
            0 <= i < 4 ==> key[i] < bound) && iv < bound,
        (exists|i: int| 0 <= i < 4 && key[i] == bound) ==> exists|i: u8|
            i < 4 && key[i as int] >= bound && size_violation(key, iv, bound) == Some(
                CipherError::KeyOutOfBounds(i, bound),
            ),
        (forall|i: int| 0 <= i < 4 ==> key[i] < bound) && iv == bound ==> size_violation(
            key,
            iv,
            bound,
        ) == Some(CipherError::IVOutOfBounds(bound)),
        bound > 0 && (forall|i: int| 0 <= i < 4 ==> key[i] == bound - 1) && iv == bound - 1
            ==> size_violation(key, iv, bound) is None,
{
    if exists|i: int| 0 <= i < 4 && key[i] == bound {
        let first: u8 = if key[0] >= bound {
            0
        } else if key[1] >= bound {
            1
        } else if key[2] >= bound {
            2
        } else {
            3
        };
        assert(first < 4 && key[first as int] >= bound && size_violation(key, iv, bound) == Some(
            CipherError::KeyOutOfBounds(first, bound),
        ));
    }
}

} // verus!
