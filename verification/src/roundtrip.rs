//! Decryption undoes encryption: the proofs, from single symbols up to
//! whole texts.

use vstd::prelude::*;
use crate::block::{
    add_mod,
    lemma_add_mod_wraps,
    lemma_mix_block_in_range,
    lemma_unmix_inverts_mix,
    mix_block,
    sub_mod,
};
use crate::cipher::{
    add_stream,
    block_at,
    decrypted_codes,
    encrypted_codes,
    full_len,
    mix_blocks,
    padded,
    padding_len,
    sub_stream,
    unmix_blocks,
    Cipher,
};
use crate::encoding::{
    char_of,
    chars_distinct,
    code_of,
    codes_dense,
    decode_seq,
    encode_seq,
    fold_stable,
    folded,
    representable,
};
use crate::key::keystream;

verus! {

/// Every code of `codes` lies below `m`.
pub open spec fn all_below(codes: Seq<u8>, m: int) -> bool {
    forall|i: int| 0 <= i < codes.len() ==> (#[trigger] codes[i] as int) < m
}

/// Taking away what was added gives the symbol back.
pub proof fn lemma_sub_undoes_add(x: int, s: int, m: int)
    requires
        0 < m,
        0 <= x < m,
    ensures
        sub_mod(add_mod(x, s, m), s, m) == x,
{
    let sum = (x + s) % m;
    vstd::arithmetic::div_mod::lemma_sub_mod_noop(sum, s, m);
    vstd::arithmetic::div_mod::lemma_sub_mod_noop(x + s, s, m);
    vstd::arithmetic::div_mod::lemma_mod_twice(x + s, m);
    vstd::arithmetic::div_mod::lemma_small_mod(x as nat, m as nat);
}

/// In a table of distinct characters, looking up the character of an entry
/// finds the code of that entry.
pub proof fn lemma_code_of_entry(table: Seq<(char, u8)>, i: int)
    requires
        chars_distinct(table),
        0 <= i < table.len(),
    ensures
        code_of(table, table[i].0) == Some(table[i].1),
    decreases table.len(),
{
    if i > 0 {
        assert(table[0].0 != table[i].0);
        let rest = table.drop_first();
        assert forall|a: int, b: int| 0 <= a < b < rest.len() implies rest[a].0 != rest[b].0 by {
            assert(rest[a] == table[a + 1] && rest[b] == table[b + 1]);
        }
        assert(rest[i - 1] == table[i]);
        lemma_code_of_entry(rest, i - 1);
    }
}

/// In a table whose codes are the positions of its entries, looking up a
/// code below the table's size finds the character at that position.
pub proof fn lemma_char_of_code(table: Seq<(char, u8)>, n: u8)
    requires
        codes_dense(table),
        (n as int) < table.len(),
    ensures
        char_of(table, n) == Some(table[n as int].0),
{
    lemma_char_of_offset(table, n, 0);
    assert(table.skip(0) =~= table);
}

/// The search for a code in the entries from position `from` on, where the
/// code lies at or behind that position.
proof fn lemma_char_of_offset(table: Seq<(char, u8)>, n: u8, from: int)
    requires
        codes_dense(table),
        0 <= from <= n < table.len(),
    ensures
        char_of(table.skip(from), n) == Some(table[n as int].0),
    decreases n - from,
{
    let rest = table.skip(from);
    assert(rest[0] == table[from]);
    if from < n {
        assert(rest.drop_first() =~= table.skip(from + 1));
        lemma_char_of_offset(table, n, from + 1);
    }
}

/// A code that a table with dense codes gives for a character lies below
/// the table's size, and the character stands at that position.
pub proof fn lemma_code_of_in_range(table: Seq<(char, u8)>, c: char)
    requires
        codes_dense(table),
    ensures
        match code_of(table, c) {
            Some(code) => (code as int) < table.len() && table[code as int].0 == c,
            None => forall|i: int| 0 <= i < table.len() ==> table[i].0 != c,
        },
{
    lemma_code_of_offset(table, c, 0);
    assert(table.skip(0) =~= table);
}

/// The search for a character in the entries from position `from` on.
proof fn lemma_code_of_offset(table: Seq<(char, u8)>, c: char, from: int)
    requires
        codes_dense(table),
        0 <= from <= table.len(),
    ensures
        match code_of(table.skip(from), c) {
            Some(code) => from <= code < table.len() && table[code as int].0 == c,
            None => forall|i: int| from <= i < table.len() ==> table[i].0 != c,
        },
    decreases table.len() - from,
{
    let rest = table.skip(from);
    if from < table.len() {
        assert(rest[0] == table[from]);
        if table[from].0 != c {
            assert(rest.drop_first() =~= table.skip(from + 1));
            lemma_code_of_offset(table, c, from + 1);
        }
    }
}

/// Every code of an encoded text lies below the size of a table with dense
/// codes.
pub proof fn lemma_encoded_below(table: Seq<(char, u8)>, fold: bool, text: Seq<char>)
    requires
        codes_dense(table),
    ensures
        all_below(encode_seq(table, fold, text), table.len() as int),
    decreases text.len(),
{
    if text.len() > 0 {
        lemma_encoded_below(table, fold, text.drop_last());
        lemma_code_of_in_range(table, folded(fold, text.last()));
    }
}

/// Codes below the size of a table with dense codes decode one for one.
pub proof fn lemma_decode_in_range(table: Seq<(char, u8)>, codes: Seq<u8>)
    requires
        codes_dense(table),
        all_below(codes, table.len() as int),
    ensures
        decode_seq(table, codes).len() == codes.len(),
        forall|i: int|
            0 <= i < codes.len() ==> #[trigger] decode_seq(table, codes)[i] == table[codes[i] as int].0,
    decreases codes.len(),
{
    if codes.len() > 0 {
        let front = codes.drop_last();
        assert forall|i: int| 0 <= i < front.len() implies (#[trigger] front[i] as int)
            < table.len() by {
            assert(front[i] == codes[i]);
        }
        lemma_decode_in_range(table, front);
        assert((codes.last() as int) < table.len()) by {
            assert(codes.last() == codes[codes.len() - 1]);
        }
        lemma_char_of_code(table, codes.last());
    }
}

/// Decoding goes through a concatenation.
pub proof fn lemma_decode_concat(table: Seq<(char, u8)>, a: Seq<u8>, b: Seq<u8>)
    ensures
        decode_seq(table, a + b) == decode_seq(table, a) + decode_seq(table, b),
    decreases b.len(),
{
    if b.len() == 0 {
        assert(a + b =~= a);
        assert(decode_seq(table, a) + decode_seq(table, b) =~= decode_seq(table, a));
    } else {
        assert((a + b).drop_last() =~= a + b.drop_last());
        assert((a + b).last() == b.last());
        lemma_decode_concat(table, a, b.drop_last());
        match char_of(table, b.last()) {
            Some(c) => {
                assert((decode_seq(table, a) + decode_seq(table, b.drop_last())).push(c)
                    =~= decode_seq(table, a) + decode_seq(table, b.drop_last()).push(c));
            },
            None => {},
        }
    }
}

/// In a table that maps characters to codes one to one and whose characters
/// folding leaves alone, encoding what was decoded gives the codes back.
pub proof fn lemma_encode_undoes_decode(table: Seq<(char, u8)>, fold: bool, codes: Seq<u8>)
    requires
        chars_distinct(table),
        codes_dense(table),
        fold ==> fold_stable(table),
        all_below(codes, table.len() as int),
    ensures
        encode_seq(table, fold, decode_seq(table, codes)) == codes,
    decreases codes.len(),
{
    if codes.len() == 0 {
        assert(encode_seq(table, fold, decode_seq(table, codes)) =~= codes);
    } else {
        let front = codes.drop_last();
        let last = codes.last();
        assert forall|i: int| 0 <= i < front.len() implies (#[trigger] front[i] as int)
            < table.len() by {
            assert(front[i] == codes[i]);
        }
        assert((last as int) < table.len()) by {
            assert(last == codes[codes.len() - 1]);
        }
        lemma_encode_undoes_decode(table, fold, front);
        lemma_char_of_code(table, last);
        let c = table[last as int].0;
        let text = decode_seq(table, codes);
        assert(text == decode_seq(table, front).push(c));
        assert(text.drop_last() =~= decode_seq(table, front));
        assert(text.last() == c);
        assert(folded(fold, c) == c);
        lemma_code_of_entry(table, last as int);
        assert(table[last as int].1 == last);
        assert(encode_seq(table, fold, text) =~= codes);
    }
}

/// In such a table, decoding what was encoded gives back a text that holds
/// characters of the table only.
pub proof fn lemma_decode_undoes_encode(table: Seq<(char, u8)>, fold: bool, text: Seq<char>)
    requires
        chars_distinct(table),
        codes_dense(table),
        fold ==> fold_stable(table),
        representable(table, text),
    ensures
        decode_seq(table, encode_seq(table, fold, text)) == text,
    decreases text.len(),
{
    if text.len() == 0 {
        assert(decode_seq(table, encode_seq(table, fold, text)) =~= text);
    } else {
        let front = text.drop_last();
        let c = text.last();
        assert forall|i: int| 0 <= i < front.len() implies exists|j: int|
            0 <= j < table.len() && table[j].0 == #[trigger] front[i] by {
            assert(front[i] == text[i]);
        }
        lemma_decode_undoes_encode(table, fold, front);
        assert(c == text[text.len() - 1]);
        let j = choose|j: int| 0 <= j < table.len() && table[j].0 == c;
        assert(folded(fold, c) == c);
        lemma_code_of_entry(table, j);
        let code = table[j].1;
        assert(code as int == j);
        lemma_char_of_code(table, code);
        let codes = encode_seq(table, fold, text);
        assert(codes == encode_seq(table, fold, front).push(code));
        assert(codes.drop_last() =~= encode_seq(table, fold, front));
        assert(codes.last() == code);
        assert(decode_seq(table, codes) =~= text);
    }
}

/// Mixing keeps the length, and every symbol of a mixed full block lies
/// below the modulus.
pub proof fn lemma_mix_blocks_below(codes: Seq<u8>, m: int)
    requires
        0 < m <= 255,
        all_below(codes, m),
    ensures
        mix_blocks(codes, m).len() == codes.len(),
        all_below(mix_blocks(codes, m), m),
{
    let mixed = mix_blocks(codes, m);
    assert forall|i: int| 0 <= i < mixed.len() implies (#[trigger] mixed[i] as int) < m by {
        if i < full_len(codes.len() as int) {
            lemma_mix_block_in_range(block_at(codes, i), m);
            assert((mix_block(block_at(codes, i), m)[i % 4] as int) < m);
        } else {
            assert(mixed[i] == codes[i]);
        }
    }
}

/// Mixing the full blocks in reverse undoes mixing them forward.
pub proof fn lemma_unmix_blocks_inverts(codes: Seq<u8>, m: int)
    requires
        0 < m <= 255,
        all_below(codes, m),
    ensures
        unmix_blocks(mix_blocks(codes, m), m) == codes,
{
    let mixed = mix_blocks(codes, m);
    let back = unmix_blocks(mixed, m);
    let full = full_len(codes.len() as int);
    assert forall|i: int| 0 <= i < codes.len() implies back[i] == codes[i] by {
        if i < full {
            let start = i - i % 4;
            let block = block_at(codes, i);
            assert(0 <= start && start + 4 <= full);
            assert forall|j: int| 0 <= j < 4 implies (#[trigger] block[j] as int) < m by {
                assert(block[j] == codes[start + j]);
            }
            assert(block_at(mixed, i) =~= mix_block(block, m)) by {
                assert forall|j: int| 0 <= j < 4 implies block_at(mixed, i)[j] == mix_block(
                    block,
                    m,
                )[j] by {
                    let at = start + j;
                    assert(at - at % 4 == start);
                    assert(at % 4 == j);
                    assert(block_at(codes, at) =~= block);
                    assert(block_at(mixed, i)[j] == mixed[at]);
                }
            }
            lemma_unmix_inverts_mix(block, m);
            assert(block[i % 4] == codes[i]);
        }
    }
    assert(back =~= codes);
}

/// Subtracting the keystream undoes adding it.
pub proof fn lemma_sub_stream_inverts(codes: Seq<u8>, stream: Seq<u8>, m: int)
    requires
        0 < m <= 255,
        all_below(codes, m),
    ensures
        sub_stream(add_stream(codes, stream, m), stream, m) == codes,
{
    let sum = add_stream(codes, stream, m);
    let back = sub_stream(sum, stream, m);
    assert forall|i: int| 0 <= i < codes.len() implies back[i] == codes[i] by {
        if i < full_len(codes.len() as int) {
            assert((codes[i] as int) < m);
            lemma_add_mod_wraps(codes[i] as int, stream[i] as int, m);
            lemma_sub_undoes_add(codes[i] as int, stream[i] as int, m);
        }
    }
    assert(back =~= codes);
}

/// Encryption keeps the length, and every code that it gives lies below the
/// modulus.
pub proof fn lemma_encrypted_below(codes: Seq<u8>, key: Seq<u8>, iv: u8, m: int)
    requires
        0 < m <= 255,
        all_below(codes, m),
    ensures
        encrypted_codes(codes, key, iv, m).len() == codes.len(),
        all_below(encrypted_codes(codes, key, iv, m), m),
{
    lemma_mix_blocks_below(codes, m);
    let mixed = mix_blocks(codes, m);
    let stream = keystream(key, iv, m, (codes.len() / 4) as nat);
    let sum = add_stream(mixed, stream, m);
    assert forall|i: int| 0 <= i < sum.len() implies (#[trigger] sum[i] as int) < m by {
        assert((mixed[i] as int) < m);
        lemma_add_mod_wraps(mixed[i] as int, stream[i] as int, m);
    }
}

/// Decrypting codes undoes encrypting them, whatever the key and the
/// initialization value, for codes below the modulus.
pub proof fn lemma_decrypt_inverts_encrypt(codes: Seq<u8>, key: Seq<u8>, iv: u8, m: int)
    requires
        1 <= m <= 255,
        all_below(codes, m),
    ensures
        decrypted_codes(encrypted_codes(codes, key, iv, m), key, iv, m) == codes,
{
    lemma_mix_blocks_below(codes, m);
    let mixed = mix_blocks(codes, m);
    let stream = keystream(key, iv, m, (codes.len() / 4) as nat);
    lemma_sub_stream_inverts(mixed, stream, m);
    lemma_unmix_blocks_inverts(codes, m);
}

/// The padding that comes back from decryption: the character of the zero
/// symbol, once for every symbol of padding.
pub open spec fn padding_text(table: Seq<(char, u8)>, len: int) -> Seq<char> {
    Seq::new(padding_len(len) as nat, |i: int| table[0].0)
}

/// Round trip: with credentials that fit the table, and a table that maps
/// characters to codes one to one, decrypting the ciphertext of any text
/// gives what the table keeps of the text, followed by the padding. The
/// padding is the character of the zero symbol, at most three times.
pub proof fn lemma_round_trip(cipher: Cipher, text: Seq<char>)
    requires
        cipher.wf(),
        cipher.violation() is None,
        cipher.spec_encoder().is_reversible(),
    ensures
        cipher.plaintext(cipher.ciphertext(text)) == cipher.spec_encoder().decoded(
            cipher.spec_encoder().encoded(text),
        ) + padding_text(
            cipher.spec_encoder().entries(),
            cipher.spec_encoder().encoded(text).len() as int,
        ),
{
    let encoder = cipher.spec_encoder();
    let table = encoder.entries();
    let fold = !encoder.case_sensitive();
    let m = cipher.modulus();
    let key = cipher.key();
    let iv = cipher.iv();
    encoder.lemma_modulus_is_len();
    cipher.spec_credentials().lemma_key_len();
    assert(0 < m <= 255);

    let codes = encode_seq(table, fold, text);
    lemma_encoded_below(table, fold, text);
    let zeros = Seq::new(padding_len(codes.len() as int) as nat, |i: int| 0u8);
    let input = padded(codes);
    assert(input == codes + zeros);
    assert forall|i: int| 0 <= i < input.len() implies (#[trigger] input[i] as int) < m by {
        if i < codes.len() {
            assert(input[i] == codes[i]);
        }
    }
    let sent = encrypted_codes(input, key, iv, m);
    lemma_encrypted_below(input, key, iv, m);
    lemma_encode_undoes_decode(table, fold, sent);
    lemma_decrypt_inverts_encrypt(input, key, iv, m);
    lemma_decode_concat(table, codes, zeros);
    lemma_decode_in_range(table, zeros);
    assert(decode_seq(table, zeros) =~= padding_text(table, codes.len() as int));
}

/// Round trip for representable texts: where every character of the text
/// stands in the table, decrypting its ciphertext gives the text itself,
/// followed by the padding of at most three characters.
pub proof fn lemma_round_trip_representable(cipher: Cipher, text: Seq<char>)
    requires
        cipher.wf(),
        cipher.violation() is None,
        cipher.spec_encoder().is_reversible(),
        representable(cipher.spec_encoder().entries(), text),
    ensures
        cipher.plaintext(cipher.ciphertext(text)) == text + padding_text(
            cipher.spec_encoder().entries(),
            text.len() as int,
        ),
        padding_text(cipher.spec_encoder().entries(), text.len() as int).len() == padding_len(
            text.len() as int,
        ),
        0 <= padding_len(text.len() as int) <= 3,
{
    let encoder = cipher.spec_encoder();
    let table = encoder.entries();
    let fold = !encoder.case_sensitive();
    lemma_round_trip(cipher, text);
    lemma_decode_undoes_encode(table, fold, text);
    lemma_encoded_below(table, fold, text);
    lemma_decode_in_range(table, encode_seq(table, fold, text));
}

/// Round trip for texts of full blocks: where every character of the text
/// stands in the table and the length of the text is a multiple of four,
/// decrypting its ciphertext gives the text itself.
pub proof fn lemma_round_trip_exact(cipher: Cipher, text: Seq<char>)
    requires
        cipher.wf(),
        cipher.violation() is None,
        cipher.spec_encoder().is_reversible(),
        representable(cipher.spec_encoder().entries(), text),
        text.len() % 4 == 0,
    ensures
        cipher.plaintext(cipher.ciphertext(text)) == text,
{
    lemma_round_trip_representable(cipher, text);
    let padding = padding_text(cipher.spec_encoder().entries(), text.len() as int);
    assert(padding.len() == 0);
    assert(text + padding =~= text);
}

/// The ciphertext of a text holds one character for every code of the
/// text and of its padding: the number of codes, rounded up to a multiple
/// of four.
pub proof fn lemma_ciphertext_len(cipher: Cipher, text: Seq<char>)
    requires
        cipher.wf(),
        cipher.violation() is None,
        codes_dense(cipher.spec_encoder().entries()),
    ensures
        cipher.ciphertext(text).len() == (cipher.spec_encoder().encoded(text).len() + 3) / 4 * 4,
{
    let encoder = cipher.spec_encoder();
    let table = encoder.entries();
    let fold = !encoder.case_sensitive();
    let m = cipher.modulus();
    encoder.lemma_modulus_is_len();
    cipher.spec_credentials().lemma_key_len();
    let codes = encode_seq(table, fold, text);
    lemma_encoded_below(table, fold, text);
    let input = padded(codes);
    assert forall|i: int| 0 <= i < input.len() implies (#[trigger] input[i] as int) < m by {
        if i < codes.len() {
            assert(input[i] == codes[i]);
        }
    }
    lemma_encrypted_below(input, cipher.key(), cipher.iv(), m);
    lemma_decode_in_range(table, encrypted_codes(input, cipher.key(), cipher.iv(), m));
}

} // verus!
