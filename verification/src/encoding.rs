//! Symbol tables: the characters of an alphabet and the code of each.

use vstd::prelude::*;
use crate::error::CipherError;
use crate::text::{chars_of, fold_case, lowercase_of};

verus! {

/// The built-in tables.
#[derive(Debug, Clone, Copy, PartialEq, Eq, Structural)]
pub enum EncodingType {
    RUv4,
    RUv5,
    ENv1,
    ENv2,
}

/// The table that a new cipher starts with.
pub const DEFAULT_ENCODING: EncodingType = EncodingType::ENv1;

/// No character occurs in two entries of the table.
pub open spec fn chars_distinct(table: Seq<(char, u8)>) -> bool {
    forall|i: int, j: int| 0 <= i < j < table.len() ==> table[i].0 != table[j].0
}

/// The code of every entry is the entry's position, so that the codes are
/// the numbers from zero up to the table's size with no gap and no repeat.
pub open spec fn codes_dense(table: Seq<(char, u8)>) -> bool {
    forall|i: int| 0 <= i < table.len() ==> table[i].1 as int == i
}

/// The code of the first entry that holds `c`, if there is one.
pub open spec fn code_of(table: Seq<(char, u8)>, c: char) -> Option<u8>
    decreases table.len(),
{
    if table.len() == 0 {
        None
    } else if table[0].0 == c {
        Some(table[0].1)
    } else {
        code_of(table.drop_first(), c)
    }
}

/// The character of the first entry that holds the code `n`, if there is
/// one.
pub open spec fn char_of(table: Seq<(char, u8)>, n: u8) -> Option<char>
    decreases table.len(),
{
    if table.len() == 0 {
        None
    } else if table[0].1 == n {
        Some(table[0].0)
    } else {
        char_of(table.drop_first(), n)
    }
}

/// Folding case changes no character of the table.
pub open spec fn fold_stable(table: Seq<(char, u8)>) -> bool {
    forall|i: int| 0 <= i < table.len() ==> lowercase_of(#[trigger] table[i].0) == table[i].0
}

/// Every character of `text` occurs in the table.
pub open spec fn representable(table: Seq<(char, u8)>, text: Seq<char>) -> bool {
    forall|i: int|
        0 <= i < text.len() ==> exists|j: int| 0 <= j < table.len() && table[j].0 == #[trigger] text[i]
}

/// The character that is looked up for `c`: its lower-case form where the
/// table folds case, `c` itself where it does not.
pub open spec fn folded(fold: bool, c: char) -> char {
    if fold {
        lowercase_of(c)
    } else {
        c
    }
}

/// The codes of the characters of `text`, in order; a character that the
/// table does not hold leaves no code.
pub open spec fn encode_seq(table: Seq<(char, u8)>, fold: bool, text: Seq<char>) -> Seq<u8>
    decreases text.len(),
{
    if text.len() == 0 {
        Seq::empty()
    } else {
        let before = encode_seq(table, fold, text.drop_last());
        match code_of(table, folded(fold, text.last())) {
            Some(code) => before.push(code),
            None => before,
        }
    }
}

/// The characters of the codes in `codes`, in order; a code that the table
/// does not hold leaves no character.
pub open spec fn decode_seq(table: Seq<(char, u8)>, codes: Seq<u8>) -> Seq<char>
    decreases codes.len(),
{
    if codes.len() == 0 {
        Seq::empty()
    } else {
        let before = decode_seq(table, codes.drop_last());
        match char_of(table, codes.last()) {
            Some(c) => before.push(c),
            None => before,
        }
    }
}

/// The Cyrillic alphabet in its older ordering, without digits.
pub open spec fn cyrillic_v4() -> Seq<(char, u8)> {
    seq![
        (' ', 0u8),
        ('а', 1u8),
        ('б', 2u8),
        ('в', 3u8),
        ('г', 4u8),
        ('д', 5u8),
        ('е', 6u8),
        ('ё', 7u8),
        ('ж', 8u8),
        ('з', 9u8),
        ('и', 10u8),
        ('й', 11u8),
        ('к', 12u8),
        ('л', 13u8),
        ('м', 14u8),
        ('н', 15u8),
        ('п', 16u8),
        ('т', 17u8),
        ('р', 18u8),
        ('о', 19u8),
        ('у', 20u8),
        ('с', 21u8),
        ('х', 22u8),
        ('ф', 23u8),
        ('ш', 24u8),
        ('щ', 25u8),
        ('ч', 26u8),
        ('ц', 27u8),
        ('ы', 28u8),
        ('э', 29u8),
        ('ю', 30u8),
        ('я', 31u8),
        ('ь', 32u8),
        ('ъ', 33u8),
        ('.', 34u8),
        (',', 35u8),
        ('!', 36u8),
        ('?', 37u8),
        ('+', 38u8),
        ('-', 39u8),
        ('@', 40u8),
    ]
}

/// The Cyrillic alphabet with digits and punctuation.
pub open spec fn cyrillic_v5() -> Seq<(char, u8)> {
    seq![
        (' ', 0u8),
        ('а', 1u8),
        ('б', 2u8),
        ('в', 3u8),
        ('г', 4u8),
        ('д', 5u8),
        ('е', 6u8),
        ('ё', 7u8),
        ('ж', 8u8),
        ('з', 9u8),
        ('и', 10u8),
        ('й', 11u8),
        ('к', 12u8),
        ('л', 13u8),
        ('м', 14u8),
        ('н', 15u8),
        ('о', 16u8),
        ('п', 17u8),
        ('р', 18u8),
        ('с', 19u8),
        ('т', 20u8),
        ('у', 21u8),
        ('ф', 22u8),
        ('х', 23u8),
        ('ц', 24u8),
        ('ч', 25u8),
        ('ш', 26u8),
        ('щ', 27u8),
        ('ъ', 28u8),
        ('ы', 29u8),
        ('ь', 30u8),
        ('э', 31u8),
        ('ю', 32u8),
        ('я', 33u8),
        ('0', 34u8),
        ('1', 35u8),
        ('2', 36u8),
        ('3', 37u8),
        ('4', 38u8),
        ('5', 39u8),
        ('6', 40u8),
        ('7', 41u8),
        ('8', 42u8),
        ('9', 43u8),
        ('.', 44u8),
        (',', 45u8),
        ('!', 46u8),
        ('?', 47u8),
        ('-', 48u8),
        ('+', 49u8),
        ('@', 50u8),
    ]
}

/// The Latin alphabet in lower case with digits and punctuation.
pub open spec fn latin_v1() -> Seq<(char, u8)> {
    seq![
        (' ', 0u8),
        ('a', 1u8),
        ('b', 2u8),
        ('c', 3u8),
        ('d', 4u8),
        ('e', 5u8),
        ('f', 6u8),
        ('g', 7u8),
        ('h', 8u8),
        ('i', 9u8),
        ('j', 10u8),
        ('k', 11u8),
        ('l', 12u8),
        ('m', 13u8),
        ('n', 14u8),
        ('o', 15u8),
        ('p', 16u8),
        ('q', 17u8),
        ('r', 18u8),
        ('s', 19u8),
        ('t', 20u8),
        ('u', 21u8),
        ('v', 22u8),
        ('w', 23u8),
        ('x', 24u8),
        ('y', 25u8),
        ('z', 26u8),
        ('0', 27u8),
        ('1', 28u8),
        ('2', 29u8),
        ('3', 30u8),
        ('4', 31u8),
        ('5', 32u8),
        ('6', 33u8),
        ('7', 34u8),
        ('8', 35u8),
        ('9', 36u8),
        ('.', 37u8),
        (',', 38u8),
        ('!', 39u8),
        ('?', 40u8),
        ('-', 41u8),
    ]
}

/// The Latin alphabet in both cases with digits and punctuation.
pub open spec fn latin_v2() -> Seq<(char, u8)> {
    seq![
        (' ', 0u8),
        ('a', 1u8),
        ('b', 2u8),
        ('c', 3u8),
        ('d', 4u8),
        ('e', 5u8),
        ('f', 6u8),
        ('g', 7u8),
        ('h', 8u8),
        ('i', 9u8),
        ('j', 10u8),
        ('k', 11u8),
        ('l', 12u8),
        ('m', 13u8),
        ('n', 14u8),
        ('o', 15u8),
        ('p', 16u8),
        ('q', 17u8),
        ('r', 18u8),
        ('s', 19u8),
        ('t', 20u8),
        ('u', 21u8),
        ('v', 22u8),
        ('w', 23u8),
        ('x', 24u8),
        ('y', 25u8),
        ('z', 26u8),
        ('A', 27u8),
        ('B', 28u8),
        ('C', 29u8),
        ('D', 30u8),
        ('E', 31u8),
        ('F', 32u8),
        ('G', 33u8),
        ('H', 34u8),
        ('I', 35u8),
        ('J', 36u8),
        ('K', 37u8),
        ('L', 38u8),
        ('M', 39u8),
        ('N', 40u8),
        ('O', 41u8),
        ('P', 42u8),
        ('Q', 43u8),
        ('R', 44u8),
        ('S', 45u8),
        ('T', 46u8),
        ('U', 47u8),
        ('V', 48u8),
        ('W', 49u8),
        ('X', 50u8),
        ('Y', 51u8),
        ('Z', 52u8),
        ('0', 53u8),
        ('1', 54u8),
        ('2', 55u8),
        ('3', 56u8),
        ('4', 57u8),
        ('5', 58u8),
        ('6', 59u8),
        ('7', 60u8),
        ('8', 61u8),
        ('9', 62u8),
        ('.', 63u8),
        (',', 64u8),
        ('!', 65u8),
        ('?', 66u8),
        ('-', 67u8),
        ('+', 68u8),
        ('@', 69u8),
    ]
}

/// Builds the table [`cyrillic_v4`].
fn cyrillic_v4_entries() -> (entries: Vec<(char, u8)>)
    ensures
        entries@ == cyrillic_v4(),
{
    let entries: Vec<(char, u8)> = vec![
        (' ', 0),
        ('а', 1),
        ('б', 2),
        ('в', 3),
        ('г', 4),
        ('д', 5),
        ('е', 6),
        ('ё', 7),
        ('ж', 8),
        ('з', 9),
        ('и', 10),
        ('й', 11),
        ('к', 12),
        ('л', 13),
        ('м', 14),
        ('н', 15),
        ('п', 16),
        ('т', 17),
        ('р', 18),
        ('о', 19),
        ('у', 20),
        ('с', 21),
        ('х', 22),
        ('ф', 23),
        ('ш', 24),
        ('щ', 25),
        ('ч', 26),
        ('ц', 27),
        ('ы', 28),
        ('э', 29),
        ('ю', 30),
        ('я', 31),
        ('ь', 32),
        ('ъ', 33),
        ('.', 34),
        (',', 35),
        ('!', 36),
        ('?', 37),
        ('+', 38),
        ('-', 39),
        ('@', 40),
    ];
    assert(entries@ =~= cyrillic_v4());
    entries
}

/// Builds the table [`cyrillic_v5`].
fn cyrillic_v5_entries() -> (entries: Vec<(char, u8)>)
    ensures
        entries@ == cyrillic_v5(),
{
    let entries: Vec<(char, u8)> = vec![
        (' ', 0),
        ('а', 1),
        ('б', 2),
        ('в', 3),
        ('г', 4),
        ('д', 5),
        ('е', 6),
        ('ё', 7),
        ('ж', 8),
        ('з', 9),
        ('и', 10),
        ('й', 11),
        ('к', 12),
        ('л', 13),
        ('м', 14),
        ('н', 15),
        ('о', 16),
        ('п', 17),
        ('р', 18),
        ('с', 19),
        ('т', 20),
        ('у', 21),
        ('ф', 22),
        ('х', 23),
        ('ц', 24),
        ('ч', 25),
        ('ш', 26),
        ('щ', 27),
        ('ъ', 28),
        ('ы', 29),
        ('ь', 30),
        ('э', 31),
        ('ю', 32),
        ('я', 33),
        ('0', 34),
        ('1', 35),
        ('2', 36),
        ('3', 37),
        ('4', 38),
        ('5', 39),
        ('6', 40),
        ('7', 41),
        ('8', 42),
        ('9', 43),
        ('.', 44),
        (',', 45),
        ('!', 46),
        ('?', 47),
        ('-', 48),
        ('+', 49),
        ('@', 50),
    ];
    assert(entries@ =~= cyrillic_v5());
    entries
}

/// Builds the table [`latin_v1`].
fn latin_v1_entries() -> (entries: Vec<(char, u8)>)
    ensures
        entries@ == latin_v1(),
{
    let entries: Vec<(char, u8)> = vec![
        (' ', 0),
        ('a', 1),
        ('b', 2),
        ('c', 3),
        ('d', 4),
        ('e', 5),
        ('f', 6),
        ('g', 7),
        ('h', 8),
        ('i', 9),
        ('j', 10),
        ('k', 11),
        ('l', 12),
        ('m', 13),
        ('n', 14),
        ('o', 15),
        ('p', 16),
        ('q', 17),
        ('r', 18),
        ('s', 19),
        ('t', 20),
        ('u', 21),
        ('v', 22),
        ('w', 23),
        ('x', 24),
        ('y', 25),
        ('z', 26),
        ('0', 27),
        ('1', 28),
        ('2', 29),
        ('3', 30),
        ('4', 31),
        ('5', 32),
        ('6', 33),
        ('7', 34),
        ('8', 35),
        ('9', 36),
        ('.', 37),
        (',', 38),
        ('!', 39),
        ('?', 40),
        ('-', 41),
    ];
    assert(entries@ =~= latin_v1());
    entries
}

/// Builds the table [`latin_v2`].
fn latin_v2_entries() -> (entries: Vec<(char, u8)>)
    ensures
        entries@ == latin_v2(),
{
    let entries: Vec<(char, u8)> = vec![
        (' ', 0),
        ('a', 1),
        ('b', 2),
        ('c', 3),
        ('d', 4),
        ('e', 5),
        ('f', 6),
        ('g', 7),
        ('h', 8),
        ('i', 9),
        ('j', 10),
        ('k', 11),
        ('l', 12),
        ('m', 13),
        ('n', 14),
        ('o', 15),
        ('p', 16),
        ('q', 17),
        ('r', 18),
        ('s', 19),
        ('t', 20),
        ('u', 21),
        ('v', 22),
        ('w', 23),
        ('x', 24),
        ('y', 25),
        ('z', 26),
        ('A', 27),
        ('B', 28),
        ('C', 29),
        ('D', 30),
        ('E', 31),
        ('F', 32),
        ('G', 33),
        ('H', 34),
        ('I', 35),
        ('J', 36),
        ('K', 37),
        ('L', 38),
        ('M', 39),
        ('N', 40),
        ('O', 41),
        ('P', 42),
        ('Q', 43),
        ('R', 44),
        ('S', 45),
        ('T', 46),
        ('U', 47),
        ('V', 48),
        ('W', 49),
        ('X', 50),
        ('Y', 51),
        ('Z', 52),
        ('0', 53),
        ('1', 54),
        ('2', 55),
        ('3', 56),
        ('4', 57),
        ('5', 58),
        ('6', 59),
        ('7', 60),
        ('8', 61),
        ('9', 62),
        ('.', 63),
        (',', 64),
        ('!', 65),
        ('?', 66),
        ('-', 67),
        ('+', 68),
        ('@', 69),
    ];
    assert(entries@ =~= latin_v2());
    entries
}

/// The entries of a built-in table.
pub open spec fn builtin_table(encoding: EncodingType) -> Seq<(char, u8)> {
    match encoding {
        EncodingType::RUv4 => cyrillic_v4(),
        EncodingType::RUv5 => cyrillic_v5(),
        EncodingType::ENv1 => latin_v1(),
        EncodingType::ENv2 => latin_v2(),
    }
}

/// Every built-in table holds each character once, and its codes are the
/// positions of its entries.
pub proof fn lemma_builtin_tables_valid(encoding: EncodingType)
    ensures
        chars_distinct(builtin_table(encoding)),
        codes_dense(builtin_table(encoding)),
        builtin_table(encoding).len() == match encoding {
            EncodingType::RUv4 => 41nat,
            EncodingType::RUv5 => 51nat,
            EncodingType::ENv1 => 42nat,
            EncodingType::ENv2 => 70nat,
        },
{
}

/// An encoding table: pairs of a character and its code.
#[derive(Debug, PartialEq)]
pub struct Encoding {
    pub(crate) inner: Vec<(char, u8)>,
}

impl View for Encoding {
    type V = Seq<(char, u8)>;

    closed spec fn view(&self) -> Seq<(char, u8)> {
        self.inner@
    }
}

impl Encoding {
    /// Makes a table of the given entries without looking for repeated
    /// characters.
    pub fn new_unchecked(inner: &[(char, u8)]) -> (encoding: Self)
        ensures
            encoding@ == inner@,
    {
        Self { inner: vstd::slice::slice_to_vec(inner) }
    }

    /// The entries of the table.
    pub fn entries(&self) -> (entries: &[(char, u8)])
        ensures
            entries@ == self@,
    {
        self.inner.as_slice()
    }
}

/// Tells whether every character of the table occurs in one entry only.
pub fn check_for_malformed_encoding(data: &[(char, u8)]) -> (ok: bool)
    ensures
        ok == chars_distinct(data@),
{
    let len: usize = data.len();
    let mut i: usize = 0;
    while i < len
        invariant
            i <= len,
            len == data@.len(),
            forall|a: int, b: int| 0 <= a < i && a < b < len ==> data@[a].0 != data@[b].0,
        decreases len - i,
    {
        let current_char: char = data[i].0;
        let mut next: usize = i + 1;
        while next < len
            invariant
                i < len,
                i + 1 <= next <= len,
                len == data@.len(),
                current_char == data@[i as int].0,
                forall|b: int| i < b < next ==> data@[i as int].0 != data@[b].0,
            decreases len - next,
        {
            if current_char == data[next].0 {
                return false;
            }
            next += 1;
        }
        i += 1;
    }
    true
}

/// A symbol table in use: its entries, whether it tells upper case from
/// lower case, and its size, which is the modulus of all arithmetic.
#[derive(Debug, PartialEq)]
pub struct Encoder {
    pub(crate) table: Encoding,
    pub(crate) support_uppercase: bool,
    pub(crate) size: u8,
}

impl Encoder {
    /// The size is the number of entries.
    #[verifier::type_invariant]
    pub closed spec fn wf(self) -> bool {
        self.size as int == self.table@.len()
    }

    /// The entries of the table.
    pub closed spec fn entries(self) -> Seq<(char, u8)> {
        self.table@
    }

    /// Whether upper case and lower case are different symbols.
    pub closed spec fn case_sensitive(self) -> bool {
        self.support_uppercase
    }

    /// The size of the table.
    pub closed spec fn modulus(self) -> u8 {
        self.size
    }

    /// The codes of `text` in this table.
    pub open spec fn encoded(self, text: Seq<char>) -> Seq<u8> {
        encode_seq(self.entries(), !self.case_sensitive(), text)
    }

    /// The characters of `codes` in this table.
    pub open spec fn decoded(self, codes: Seq<u8>) -> Seq<char> {
        decode_seq(self.entries(), codes)
    }

    /// The table maps its characters to its codes one to one, and looking a
    /// character of the table up does not change it: encoding then undoes
    /// decoding.
    pub open spec fn is_reversible(self) -> bool {
        &&& chars_distinct(self.entries())
        &&& codes_dense(self.entries())
        &&& self.case_sensitive() || fold_stable(self.entries())
    }

    /// The size of a well-formed encoder is the number of its entries.
    pub proof fn lemma_modulus_is_len(self)
        requires
            self.wf(),
        ensures
            self.modulus() as int == self.entries().len(),
    {
    }

    /// Makes the encoder of a built-in table.
    pub fn new(encoding: EncodingType) -> (encoder: Self)
        ensures
            encoder.wf(),
            encoder.entries() == builtin_table(encoding),
            encoder.case_sensitive() == (encoding == EncodingType::ENv2),
            encoder.modulus() as int == builtin_table(encoding).len(),
    {
        proof {
            lemma_builtin_tables_valid(encoding);
        }
        match encoding {
            EncodingType::RUv4 => Self {
                table: Encoding { inner: cyrillic_v4_entries() },
                size: 41,
                support_uppercase: false,
            },
            EncodingType::RUv5 => Self {
                table: Encoding { inner: cyrillic_v5_entries() },
                size: 51,
                support_uppercase: false,
            },
            EncodingType::ENv1 => Self {
                table: Encoding { inner: latin_v1_entries() },
                size: 42,
                support_uppercase: false,
            },
            EncodingType::ENv2 => Self {
                table: Encoding { inner: latin_v2_entries() },
                size: 70,
                support_uppercase: true,
            },
        }
    }

    /// Makes the encoder of a custom table, unless a character occurs in it
    /// twice.
    pub fn load(encoding: Encoding, support_uppercase: bool) -> (r: Result<Self, CipherError>)
        requires
            encoding@.len() <= 255,
        ensures
            match r {
                Ok(encoder) => {
                    &&& chars_distinct(encoding@)
                    &&& encoder.wf()
                    &&& encoder.entries() == encoding@
                    &&& encoder.case_sensitive() == support_uppercase
                    &&& encoder.modulus() as int == encoding@.len()
                },
                Err(e) => !chars_distinct(encoding@) && e == CipherError::MalformedEncoding,
            },
    {
        if !check_for_malformed_encoding(encoding.inner.as_slice()) {
            return Err(CipherError::MalformedEncoding);
        }
        let size: u8 = encoding.inner.len() as u8;
        Ok(Self { size, table: encoding, support_uppercase })
    }

    /// Tells whether folding case changes no character of the table.
    pub fn check_fold_stable(&self) -> (ok: bool)
        ensures
            ok == fold_stable(self.entries()),
    {
        let ghost table = self.table@;
        let n: usize = self.table.inner.len();
        let mut i: usize = 0;
        while i < n
            invariant
                i <= n,
                n == table.len(),
                table == self.table.inner@,
                forall|j: int| 0 <= j < i ==> lowercase_of(#[trigger] table[j].0) == table[j].0,
            decreases n - i,
        {
            let c: char = self.table.inner[i].0;
            if fold_case(c) != c {
                assert(lowercase_of(table[i as int].0) != table[i as int].0);
                return false;
            }
            i += 1;
        }
        true
    }

    /// Tells whether the code of every entry is the entry's position.
    pub fn check_codes_dense(&self) -> (ok: bool)
        ensures
            ok == codes_dense(self.entries()),
    {
        proof {
            use_type_invariant(self);
        }
        let ghost table = self.table@;
        let n: usize = self.table.inner.len();
        let mut i: usize = 0;
        while i < n
            invariant
                i <= n,
                n == table.len(),
                n <= 255,
                table == self.table.inner@,
                forall|j: int| 0 <= j < i ==> table[j].1 as int == j,
            decreases n - i,
        {
            if self.table.inner[i].1 != i as u8 {
                assert(table[i as int].1 as int != i);
                return false;
            }
            i += 1;
        }
        true
    }

    /// Tells whether encoding undoes decoding in this table.
    pub fn check_reversible(&self) -> (ok: bool)
        ensures
            ok == self.is_reversible(),
    {
        check_for_malformed_encoding(self.table.inner.as_slice()) && self.check_codes_dense() && (
        self.support_uppercase || self.check_fold_stable())
    }

    /// The table.
    pub fn table(&self) -> (table: &Encoding)
        ensures
            table@ == self.entries(),
    {
        &self.table
    }

    /// The size of the table.
    pub fn size(&self) -> (size: u8)
        ensures
            size == self.modulus(),
    {
        self.size
    }

    /// Looks up the code of a character.
    pub fn encode_char(&self, c: char) -> (code: Option<u8>)
        ensures
            code == code_of(self.entries(), c),
    {
        let ghost table = self.table@;
        let n: usize = self.table.inner.len();
        let mut i: usize = 0;
        assert(table.skip(0) =~= table);
        while i < n
            invariant
                i <= n,
                n == table.len(),
                table == self.table.inner@,
                code_of(table, c) == code_of(table.skip(i as int), c),
            decreases n - i,
        {
            assert(table.skip(i as int).drop_first() =~= table.skip(i + 1));
            if self.table.inner[i].0 == c {
                return Some(self.table.inner[i].1);
            }
            i += 1;
        }
        None
    }

    /// Looks up the character of a code.
    pub fn decode_char(&self, n: u8) -> (c: Option<char>)
        ensures
            c == char_of(self.entries(), n),
    {
        let ghost table = self.table@;
        let len: usize = self.table.inner.len();
        let mut i: usize = 0;
        assert(table.skip(0) =~= table);
        while i < len
            invariant
                i <= len,
                len == table.len(),
                table == self.table.inner@,
                char_of(table, n) == char_of(table.skip(i as int), n),
            decreases len - i,
        {
            assert(table.skip(i as int).drop_first() =~= table.skip(i + 1));
            if self.table.inner[i].1 == n {
                return Some(self.table.inner[i].0);
            }
            i += 1;
        }
        None
    }

    /// Encodes a string. Unless the table tells upper case from lower case,
    /// each character is looked up in its lower-case form. A character that
    /// the table does not hold is left out.
    pub fn encode(&self, str: &str) -> (codes: Vec<u8>)
        ensures
            codes@ == self.encoded(str@),
    {
        let text: Vec<char> = chars_of(str);
        let mut codes: Vec<u8> = Vec::new();
        let mut i: usize = 0;
        assert(text@.take(0) =~= Seq::<char>::empty());
        while i < text.len()
            invariant
                i <= text.len(),
                text@ == str@,
                codes@ == self.encoded(text@.take(i as int)),
            decreases text.len() - i,
        {
            let c: char = text[i];
            let looked_up: char = if !self.support_uppercase {
                fold_case(c)
            } else {
                c
            };
            assert(text@.take(i + 1).drop_last() =~= text@.take(i as int));
            assert(text@.take(i + 1).last() == c);
            match self.encode_char(looked_up) {
                Some(code) => {
                    codes.push(code);
                },
                None => {},
            }
            i += 1;
        }
        assert(text@.take(text.len() as int) =~= text@);
        codes
    }

    /// Decodes codes to a string. A code that the table does not hold is
    /// left out.
    pub fn decode(&self, bytes: &[u8]) -> (text: String)
        ensures
            text@ == self.decoded(bytes@),
    {
        let mut text: String = String::new();
        let mut i: usize = 0;
        assert(bytes@.take(0) =~= Seq::<u8>::empty());
        while i < bytes.len()
            invariant
                i <= bytes.len(),
                text@ == self.decoded(bytes@.take(i as int)),
            decreases bytes.len() - i,
        {
            assert(bytes@.take(i + 1).drop_last() =~= bytes@.take(i as int));
            assert(bytes@.take(i + 1).last() == bytes@[i as int]);
            match self.decode_char(bytes[i]) {
                Some(c) => {
                    text.push(c);
                },
                None => {},
            }
            i += 1;
        }
        assert(bytes@.take(bytes.len() as int) =~= bytes@);
        text
    }
}

} // verus!
