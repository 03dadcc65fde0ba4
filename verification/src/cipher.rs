//! The cipher: encode, pad, mix, combine with the keystream, decode; and the
//! way back.

use vstd::prelude::*;
use crate::block::{
    add_mod,
    add_symbols,
    mix_block,
    reverse_chunk_swap,
    sub_mod,
    sub_symbols,
    swap_chunk,
    unmix_block,
};
use crate::encoding::{Encoder, Encoding, EncodingType, DEFAULT_ENCODING, builtin_table, chars_distinct};
use crate::encoding::representable;
use crate::error::CipherError;
use crate::roundtrip::{lemma_round_trip_representable, padding_text};
use crate::key::{
    keystream,
    parse_credentials,
    parsed_credentials,
    size_violation,
    verify_key,
    Credentials,
};

pub use crate::block::CHUNK_SIZE;

verus! {

/// Number of symbols of a buffer of `len` symbols that lie in full blocks.
pub open spec fn full_len(len: int) -> int {
    (len / 4) * 4
}

/// The block of `codes` that holds position `i`.
pub open spec fn block_at(codes: Seq<u8>, i: int) -> Seq<u8> {
    codes.subrange(i - i % 4, i - i % 4 + 4)
}

/// Every full block of `codes` mixed forward; a trailing partial block is
/// left as it is.
pub open spec fn mix_blocks(codes: Seq<u8>, m: int) -> Seq<u8> {
    Seq::new(
        codes.len(),
        |i: int|
            if i < full_len(codes.len() as int) {
                mix_block(block_at(codes, i), m)[i % 4]
            } else {
                codes[i]
            },
    )
}

/// Every full block of `codes` mixed in reverse; a trailing partial block
/// is left as it is.
pub open spec fn unmix_blocks(codes: Seq<u8>, m: int) -> Seq<u8> {
    Seq::new(
        codes.len(),
        |i: int|
            if i < full_len(codes.len() as int) {
                unmix_block(block_at(codes, i), m)[i % 4]
            } else {
                codes[i]
            },
    )
}

/// The keystream added to every symbol of `codes` that lies in a full
/// block.
pub open spec fn add_stream(codes: Seq<u8>, stream: Seq<u8>, m: int) -> Seq<u8> {
    Seq::new(
        codes.len(),
        |i: int|
            if i < full_len(codes.len() as int) {
                add_mod(codes[i] as int, stream[i] as int, m) as u8
            } else {
                codes[i]
            },
    )
}

/// The keystream subtracted from every symbol of `codes` that lies in a
/// full block.
pub open spec fn sub_stream(codes: Seq<u8>, stream: Seq<u8>, m: int) -> Seq<u8> {
    Seq::new(
        codes.len(),
        |i: int|
            if i < full_len(codes.len() as int) {
                sub_mod(codes[i] as int, stream[i] as int, m) as u8
            } else {
                codes[i]
            },
    )
}

/// The codes of a ciphertext: the full blocks of `codes` are mixed and the
/// keystream is added to them.
pub open spec fn encrypted_codes(codes: Seq<u8>, key: Seq<u8>, iv: u8, m: int) -> Seq<u8> {
    add_stream(mix_blocks(codes, m), keystream(key, iv, m, (codes.len() / 4) as nat), m)
}

/// The codes of a plaintext: the keystream is subtracted from the full
/// blocks of `codes` and they are mixed in reverse.
pub open spec fn decrypted_codes(codes: Seq<u8>, key: Seq<u8>, iv: u8, m: int) -> Seq<u8> {
    unmix_blocks(sub_stream(codes, keystream(key, iv, m, (codes.len() / 4) as nat), m), m)
}

/// Number of zero symbols that are put behind `len` symbols: as many as
/// lead to the next multiple of four, none where `len` is a multiple
/// itself.
pub open spec fn padding_len(len: int) -> int {
    (4 - len % 4) % 4
}

/// `codes` with its padding of zero symbols.
pub open spec fn padded(codes: Seq<u8>) -> Seq<u8> {
    codes + Seq::new(padding_len(codes.len() as int) as nat, |i: int| 0u8)
}

/// Fills the last block of the buffer up with zero symbols, where
/// `remainder` symbols stand in it; a buffer of full blocks stays as it is.
pub fn adjust_chunks(buffer: &mut Vec<u8>, remainder: usize)
    requires
        remainder <= 4,
    ensures
        final(buffer)@ == old(buffer)@ + Seq::new(((4 - remainder) % 4) as nat, |i: int| 0u8),
{
    let padding: usize = (CHUNK_SIZE - remainder) % CHUNK_SIZE;
    let mut i: usize = 0;
    assert(buffer@ =~= old(buffer)@ + Seq::new(0nat, |j: int| 0u8));
    while i < padding
        invariant
            i <= padding,
            buffer@ == old(buffer)@ + Seq::new(i as nat, |j: int| 0u8),
        decreases padding - i,
    {
        buffer.push(0);
        assert(buffer@ =~= old(buffer)@ + Seq::new((i + 1) as nat, |j: int| 0u8));
        i += 1;
    }
}

/// Mixes every full block of `buffer` forward.
pub fn mix_buffer(buffer: &mut [u8], range_mod: u8)
    requires
        range_mod > 0,
    ensures
        final(buffer)@ == mix_blocks(old(buffer)@, range_mod as int),
{
    let len: usize = buffer.len();
    let blocks: usize = len / CHUNK_SIZE;
    let ghost m = range_mod as int;
    let mut k: usize = 0;
    while k < blocks
        invariant
            k <= blocks,
            len == buffer@.len(),
            range_mod > 0,
            m == range_mod as int,
            blocks == old(buffer)@.len() / 4,
            buffer@.len() == old(buffer)@.len(),
            forall|i: int|
                0 <= i < buffer@.len() ==> buffer@[i] == if i < 4 * k {
                    mix_blocks(old(buffer)@, m)[i]
                } else {
                    old(buffer)@[i]
                },
        decreases blocks - k,
    {
        let at: usize = k * CHUNK_SIZE;
        let mut chunk: Vec<u8> = Vec::with_capacity(CHUNK_SIZE);
        chunk.push(buffer[at]);
        chunk.push(buffer[at + 1]);
        chunk.push(buffer[at + 2]);
        chunk.push(buffer[at + 3]);
        assert(chunk@ =~= block_at(old(buffer)@, at as int));
        assert(chunk@.take(4) =~= chunk@ && chunk@.skip(4) =~= Seq::<u8>::empty());
        swap_chunk(chunk.as_mut_slice(), range_mod);
        assert(chunk@ =~= mix_block(block_at(old(buffer)@, at as int), m));
        buffer[at] = chunk[0];
        buffer[at + 1] = chunk[1];
        buffer[at + 2] = chunk[2];
        buffer[at + 3] = chunk[3];
        assert forall|i: int| 0 <= i < buffer@.len() implies buffer@[i] == if i < 4 * (k + 1) {
            mix_blocks(old(buffer)@, m)[i]
        } else {
            old(buffer)@[i]
        } by {
            if at <= i < at + 4 {
                assert(i - i % 4 == at);
            }
        }
        k += 1;
    }
    assert(buffer@ =~= mix_blocks(old(buffer)@, m));
}

/// Mixes every full block of `buffer` in reverse.
pub fn unmix_buffer(buffer: &mut [u8], range_mod: u8)
    requires
        range_mod > 0,
    ensures
        final(buffer)@ == unmix_blocks(old(buffer)@, range_mod as int),
{
    let len: usize = buffer.len();
    let blocks: usize = len / CHUNK_SIZE;
    let ghost m = range_mod as int;
    let mut k: usize = 0;
    while k < blocks
        invariant
            k <= blocks,
            len == buffer@.len(),
            range_mod > 0,
            m == range_mod as int,
            blocks == old(buffer)@.len() / 4,
            buffer@.len() == old(buffer)@.len(),
            forall|i: int|
                0 <= i < buffer@.len() ==> buffer@[i] == if i < 4 * k {
                    unmix_blocks(old(buffer)@, m)[i]
                } else {
                    old(buffer)@[i]
                },
        decreases blocks - k,
    {
        let at: usize = k * CHUNK_SIZE;
        let mut chunk: Vec<u8> = Vec::with_capacity(CHUNK_SIZE);
        chunk.push(buffer[at]);
        chunk.push(buffer[at + 1]);
        chunk.push(buffer[at + 2]);
        chunk.push(buffer[at + 3]);
        assert(chunk@ =~= block_at(old(buffer)@, at as int));
        assert(chunk@.take(4) =~= chunk@ && chunk@.skip(4) =~= Seq::<u8>::empty());
        reverse_chunk_swap(chunk.as_mut_slice(), range_mod);
        assert(chunk@ =~= unmix_block(block_at(old(buffer)@, at as int), m));
        buffer[at] = chunk[0];
        buffer[at + 1] = chunk[1];
        buffer[at + 2] = chunk[2];
        buffer[at + 3] = chunk[3];
        assert forall|i: int| 0 <= i < buffer@.len() implies buffer@[i] == if i < 4 * (k + 1) {
            unmix_blocks(old(buffer)@, m)[i]
        } else {
            old(buffer)@[i]
        } by {
            if at <= i < at + 4 {
                assert(i - i % 4 == at);
            }
        }
        k += 1;
    }
    assert(buffer@ =~= unmix_blocks(old(buffer)@, m));
}

/// Adds the keystream to the symbols of `buffer` that lie in full blocks.
pub fn add_key(buffer: &mut [u8], key: &[u8], range_mod: u8)
    requires
        range_mod > 0,
        key@.len() >= full_len(old(buffer)@.len() as int),
    ensures
        final(buffer)@ == add_stream(old(buffer)@, key@, range_mod as int),
{
    let covered: usize = (buffer.len() / CHUNK_SIZE) * CHUNK_SIZE;
    let mut i: usize = 0;
    while i < covered
        invariant
            i <= covered,
            range_mod > 0,
            covered == full_len(old(buffer)@.len() as int),
            covered <= key@.len(),
            buffer@.len() == old(buffer)@.len(),
            forall|j: int|
                0 <= j < buffer@.len() ==> buffer@[j] == if j < i {
                    add_stream(old(buffer)@, key@, range_mod as int)[j]
                } else {
                    old(buffer)@[j]
                },
        decreases covered - i,
    {
        let sum: u8 = add_symbols(buffer[i], key[i], range_mod);
        buffer[i] = sum;
        i += 1;
    }
    assert(buffer@ =~= add_stream(old(buffer)@, key@, range_mod as int));
}

/// Subtracts the keystream from the symbols of `buffer` that lie in full
/// blocks.
pub fn remove_key(buffer: &mut [u8], key: &[u8], range_mod: u8)
    requires
        range_mod > 0,
        key@.len() >= full_len(old(buffer)@.len() as int),
    ensures
        final(buffer)@ == sub_stream(old(buffer)@, key@, range_mod as int),
{
    let covered: usize = (buffer.len() / CHUNK_SIZE) * CHUNK_SIZE;
    let mut i: usize = 0;
    while i < covered
        invariant
            i <= covered,
            range_mod > 0,
            covered == full_len(old(buffer)@.len() as int),
            covered <= key@.len(),
            buffer@.len() == old(buffer)@.len(),
            forall|j: int|
                0 <= j < buffer@.len() ==> buffer@[j] == if j < i {
                    sub_stream(old(buffer)@, key@, range_mod as int)[j]
                } else {
                    old(buffer)@[j]
                },
        decreases covered - i,
    {
        let difference: u8 = sub_symbols(buffer[i], key[i], range_mod);
        buffer[i] = difference;
        i += 1;
    }
    assert(buffer@ =~= sub_stream(old(buffer)@, key@, range_mod as int));
}

/// A cipher: a symbol table and credentials.
#[derive(Debug, PartialEq)]
pub struct Cipher {
    encoder: Encoder,
    credentials: Credentials,
}

impl Cipher {
    /// The symbol table in use.
    pub closed spec fn spec_encoder(self) -> Encoder {
        self.encoder
    }

    /// The credentials in use.
    pub closed spec fn spec_credentials(self) -> Credentials {
        self.credentials
    }

    /// Both parts are well formed.
    pub open spec fn wf(self) -> bool {
        self.spec_encoder().wf() && self.spec_credentials().wf()
    }

    /// The key symbols.
    pub open spec fn key(self) -> Seq<u8> {
        self.spec_credentials().spec_key()
    }

    /// The initialization value.
    pub open spec fn iv(self) -> u8 {
        self.spec_credentials().spec_iv()
    }

    /// The modulus of all arithmetic: the size of the table.
    pub open spec fn modulus(self) -> int {
        self.spec_encoder().modulus() as int
    }

    /// The bound that the credentials break in the table in use, if any.
    pub open spec fn violation(self) -> Option<CipherError> {
        size_violation(self.key(), self.iv(), self.spec_encoder().modulus())
    }

    /// The ciphertext of `plaintext`: its codes are padded, mixed and
    /// combined with the keystream, and the result is decoded.
    pub open spec fn ciphertext(self, plaintext: Seq<char>) -> Seq<char> {
        self.spec_encoder().decoded(
            encrypted_codes(
                padded(self.spec_encoder().encoded(plaintext)),
                self.key(),
                self.iv(),
                self.modulus(),
            ),
        )
    }

    /// The plaintext of `ciphertext`: the keystream is taken from its codes,
    /// they are mixed in reverse, and the result is decoded.
    pub open spec fn plaintext(self, ciphertext: Seq<char>) -> Seq<char> {
        self.spec_encoder().decoded(
            decrypted_codes(
                self.spec_encoder().encoded(ciphertext),
                self.key(),
                self.iv(),
                self.modulus(),
            ),
        )
    }

    /// The symbol table in use.
    pub fn encoder(&self) -> (encoder: &Encoder)
        ensures
            *encoder == self.spec_encoder(),
    {
        &self.encoder
    }

    /// Makes a cipher of a raw key and an initialization value, with the
    /// default table.
    pub fn new(key: &[u8], iv: u8) -> (r: Result<Cipher, CipherError>)
        ensures
            match r {
                Ok(cipher) => {
                    &&& key@.len() == 4
                    &&& cipher.wf()
                    &&& cipher.key() == key@
                    &&& cipher.iv() == iv
                    &&& cipher.spec_encoder().entries() == builtin_table(DEFAULT_ENCODING)
                    &&& !cipher.spec_encoder().case_sensitive()
                },
                Err(e) => key@.len() != 4 && e == CipherError::InvalidKey,
            },
    {
        if !verify_key(key) {
            return Err(CipherError::InvalidKey);
        }
        Ok(Cipher { encoder: Encoder::new(DEFAULT_ENCODING), credentials: Credentials::new(key, iv) })
    }

    /// Makes a cipher of a key and an initialization value written as
    /// decimal strings, with the default table. The key string holds one
    /// symbol in every two characters.
    pub fn from(key: &str, iv: &str) -> (r: Result<Cipher, CipherError>)
        ensures
            match r {
                Ok(cipher) => {
                    &&& parsed_credentials(key@, iv@) == Ok::<(Seq<u8>, u8), CipherError>(
                        (cipher.key(), cipher.iv()),
                    )
                    &&& cipher.wf()
                    &&& cipher.spec_encoder().entries() == builtin_table(DEFAULT_ENCODING)
                    &&& !cipher.spec_encoder().case_sensitive()
                },
                Err(e) => parsed_credentials(key@, iv@) == Err::<(Seq<u8>, u8), CipherError>(e),
            },
    {
        match parse_credentials(key, iv) {
            Ok(credentials) => Ok(Cipher { encoder: Encoder::new(DEFAULT_ENCODING), credentials }),
            Err(e) => Err(e),
        }
    }

    /// Replaces the table by a built-in one. The credentials stay, and are
    /// held against the new table when the cipher is next used.
    pub fn set_encoder(&mut self, encoding_type: EncodingType)
        ensures
            final(self).spec_encoder().wf(),
            final(self).spec_encoder().entries() == builtin_table(encoding_type),
            final(self).spec_encoder().case_sensitive() == (encoding_type == EncodingType::ENv2),
            final(self).spec_credentials() == old(self).spec_credentials(),
    {
        self.encoder = Encoder::new(encoding_type);
    }

    /// Replaces the table by a custom one, unless a character occurs in it
    /// twice; then the cipher stays as it was.
    pub fn load_encoder(&mut self, table: &[(char, u8)], supports_uppercase: bool) -> (r: Result<
        (),
        CipherError,
    >)
        requires
            table@.len() <= 255,
        ensures
            final(self).spec_credentials() == old(self).spec_credentials(),
            match r {
                Ok(()) => {
                    &&& chars_distinct(table@)
                    &&& final(self).spec_encoder().wf()
                    &&& final(self).spec_encoder().entries() == table@
                    &&& final(self).spec_encoder().case_sensitive() == supports_uppercase
                },
                Err(e) => {
                    &&& !chars_distinct(table@)
                    &&& e == CipherError::MalformedEncoding
                    &&& final(self).spec_encoder() == old(self).spec_encoder()
                },
            },
    {
        match Encoder::load(Encoding::new_unchecked(table), supports_uppercase) {
            Ok(encoder) => {
                self.encoder = encoder;
                Ok(())
            },
            Err(e) => Err(e),
        }
    }

    /// Encrypts codes in place: every full block is mixed and combined with
    /// the keystream. What follows the last full block is left as it is.
    pub fn encrypt_raw(&self, buffer: &mut [u8])
        requires
            old(buffer)@.len() >= 4 ==> self.modulus() > 0,
        ensures
            final(buffer)@ == encrypted_codes(
                old(buffer)@,
                self.key(),
                self.iv(),
                self.modulus(),
            ),
    {
        let key_capacity: usize = buffer.len() / CHUNK_SIZE;
        if key_capacity == 0 {
            assert(buffer@ =~= encrypted_codes(buffer@, self.key(), self.iv(), self.modulus()));
            return ;
        }
        let mut key: Vec<u8> = Vec::new();
        self.credentials.expand_key(&mut key, key_capacity, self.encoder.size());
        mix_buffer(buffer, self.encoder.size());
        add_key(buffer, key.as_slice(), self.encoder.size());
    }

    /// Encrypts a text. Characters that the table does not hold are left
    /// out; the codes of the others are padded with zero symbols to the
    /// next multiple of four, unless their number is one already.
    pub fn encrypt(&self, plaintext: &str) -> (r: Result<String, CipherError>)
        ensures
            match r {
                Ok(text) => self.violation() is None && text@ == self.ciphertext(plaintext@),
                Err(e) => self.violation() == Some(e),
            },
    {
        match self.credentials.verify_credentials_size(self.encoder.size()) {
            Err(e) => {
                return Err(e);
            },
            Ok(()) => {},
        }
        let mut encoded: Vec<u8> = self.encoder.encode(plaintext);
        let remainder: usize = encoded.len() % CHUNK_SIZE;
        adjust_chunks(&mut encoded, remainder);
        assert(encoded@ == padded(self.spec_encoder().encoded(plaintext@)));
        self.encrypt_raw(encoded.as_mut_slice());
        Ok(self.encoder.decode(encoded.as_slice()))
    }

    /// Decrypts a text. What follows the last full block of its codes is
    /// neither combined with the keystream nor mixed.
    pub fn decrypt(&self, ciphertext: &str) -> (r: Result<String, CipherError>)
        ensures
            match r {
                Ok(text) => self.violation() is None && text@ == self.plaintext(ciphertext@),
                Err(e) => self.violation() == Some(e),
            },
    {
        match self.credentials.verify_credentials_size(self.encoder.size()) {
            Err(e) => {
                return Err(e);
            },
            Ok(()) => {},
        }
        let mut encoded: Vec<u8> = self.encoder.encode(ciphertext);
        self.decrypt_raw(encoded.as_mut_slice());
        Ok(self.encoder.decode(encoded.as_slice()))
    }

    /// Tells whether decryption undoes encryption with this cipher: the
    /// credentials fit the table, and the table is reversible. Then
    /// decrypting the ciphertext of a text whose characters all stand in the
    /// table gives the text, followed by its padding.
    pub fn check_round_trip(&self) -> (ok: bool)
        ensures
            ok == (self.violation() is None && self.spec_encoder().is_reversible()),
            ok ==> forall|text: Seq<char>|
                representable(self.spec_encoder().entries(), text) ==> #[trigger] self.plaintext(
                    self.ciphertext(text),
                ) == text + padding_text(self.spec_encoder().entries(), text.len() as int),
    {
        let fits: bool = match self.credentials.verify_credentials_size(self.encoder.size()) {
            Ok(()) => true,
            Err(_) => false,
        };
        let ok: bool = fits && self.encoder.check_reversible();
        proof {
            use_type_invariant(&self.encoder);
            use_type_invariant(&self.credentials);
            if ok {
                assert forall|text: Seq<char>|
                    representable(
                        self.spec_encoder().entries(),
                        text,
                    ) implies #[trigger] self.plaintext(self.ciphertext(text)) == text
                    + padding_text(self.spec_encoder().entries(), text.len() as int) by {
                    lemma_round_trip_representable(*self, text);
                }
            }
        }
        ok
    }

    /// Decrypts codes in place: the keystream is taken from every full
    /// block, and the block is mixed in reverse. What follows the last full
    /// block is left as it is.
    pub fn decrypt_raw(&self, buffer: &mut [u8])
        requires
            old(buffer)@.len() >= 4 ==> self.modulus() > 0,
        ensures
            final(buffer)@ == decrypted_codes(
                old(buffer)@,
                self.key(),
                self.iv(),
                self.modulus(),
            ),
    {
        let key_capacity: usize = buffer.len() / CHUNK_SIZE;
        if key_capacity == 0 {
            assert(buffer@ =~= decrypted_codes(buffer@, self.key(), self.iv(), self.modulus()));
            return ;
        }
        let mut key: Vec<u8> = Vec::new();
        self.credentials.expand_key(&mut key, key_capacity, self.encoder.size());
        remove_key(buffer, key.as_slice(), self.encoder.size());
        unmix_buffer(buffer, self.encoder.size());
    }
}

} // verus!
