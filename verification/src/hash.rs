//! The 32-byte hashes that name blocks and trie nodes, and their hexadecimal form.
use vstd::prelude::*;

verus! {

/// How many bytes a block header hash takes, in memory and at the head of a trie file.
pub const BLOCK_HEADER_HASH_ENCODED_SIZE: u32 = 32;

/// How many bytes the hash of a trie node takes.
pub const TRIEHASH_ENCODED_SIZE: usize = 32;

/// The hash that names a block.
#[derive(Clone, Copy, Debug)]
pub struct BlockHeaderHash(pub [u8; 32]);

/// The hash of a trie node.
#[derive(Clone, Copy, Debug)]
pub struct TrieHash(pub [u8; 32]);

/// Whether two 32-byte arrays hold the same bytes.
fn same_bytes(a: &[u8; 32], b: &[u8; 32]) -> (same: bool)
    ensures
        same == (*a == *b),
{
    let mut i: usize = 0;
    while i < 32
        invariant
            i <= 32,
            forall|j: int| 0 <= j < i ==> a[j] == b[j],
        decreases 32 - i,
    {
        if a[i] != b[i] {
            return false;
        }
        i = i + 1;
    }
    assert(*a =~= *b);
    true
}

impl PartialEq for BlockHeaderHash {
    fn eq(&self, other: &Self) -> (same: bool) {
        same_bytes(&self.0, &other.0)
    }
}

impl Eq for BlockHeaderHash {

}

impl vstd::std_specs::cmp::PartialEqSpecImpl for BlockHeaderHash {
    open spec fn obeys_eq_spec() -> bool {
        true
    }

    open spec fn eq_spec(&self, other: &Self) -> bool {
        self == other
    }
}

impl PartialEq for TrieHash {
    fn eq(&self, other: &Self) -> (same: bool) {
        same_bytes(&self.0, &other.0)
    }
}

impl Eq for TrieHash {

}

impl vstd::std_specs::cmp::PartialEqSpecImpl for TrieHash {
    open spec fn obeys_eq_spec() -> bool {
        true
    }

    open spec fn eq_spec(&self, other: &Self) -> bool {
        self == other
    }
}

/// The lower-case hexadecimal digit for a value below 16.
pub open spec fn hex_digit(value: int) -> char {
    if value < 10 {
        ('0' as int + value) as char
    } else {
        ('a' as int + value - 10) as char
    }
}

/// The lower-case hexadecimal form of some bytes, two digits for each.
pub open spec fn hex_of(bytes: Seq<u8>) -> Seq<char> {
    Seq::new(
        2 * bytes.len(),
        |i: int|
            if i % 2 == 0 {
                hex_digit(bytes[i / 2] as int / 16)
            } else {
                hex_digit(bytes[i / 2] as int % 16)
            },
    )
}

/// The value of a hexadecimal digit of either case.
pub open spec fn digit_value(c: char) -> Option<int> {
    if '0' <= c <= '9' {
        Some(c as int - '0' as int)
    } else if 'a' <= c <= 'f' {
        Some(c as int - 'a' as int + 10)
    } else if 'A' <= c <= 'F' {
        Some(c as int - 'A' as int + 10)
    } else {
        None
    }
}

/// Whether a text is the hexadecimal form of 32 bytes.
pub open spec fn is_hash_text(text: Seq<char>) -> bool {
    &&& text.len() == 64
    &&& forall|i: int| 0 <= i < 64 ==> digit_value(#[trigger] text[i]) is Some
}

/// The bytes that a hexadecimal text stands for.
pub open spec fn bytes_of_hex(text: Seq<char>) -> Seq<u8> {
    Seq::new(
        text.len() / 2,
        |i: int| (16 * digit_value(text[2 * i])->0 + digit_value(text[2 * i + 1])->0) as u8,
    )
}

/// The lower-case hexadecimal digit for a value below 16, as a string.
fn digit_text(value: u8) -> (digit: &'static str)
    requires
        value < 16,
    ensures
        digit@ == seq![hex_digit(value as int)],
{
    proof {
        reveal_strlit("0");
        reveal_strlit("1");
        reveal_strlit("2");
        reveal_strlit("3");
        reveal_strlit("4");
        reveal_strlit("5");
        reveal_strlit("6");
        reveal_strlit("7");
        reveal_strlit("8");
        reveal_strlit("9");
        reveal_strlit("a");
        reveal_strlit("b");
        reveal_strlit("c");
        reveal_strlit("d");
        reveal_strlit("e");
        reveal_strlit("f");
    }
    let digit = match value {
        0 => "0",
        1 => "1",
        2 => "2",
        3 => "3",
        4 => "4",
        5 => "5",
        6 => "6",
        7 => "7",
        8 => "8",
        9 => "9",
        10 => "a",
        11 => "b",
        12 => "c",
        13 => "d",
        14 => "e",
        _ => "f",
    };
    assert(digit@ =~= seq![hex_digit(value as int)]);
    digit
}

/// The value of a hexadecimal digit of either case.
fn value_of_digit(c: char) -> (value: Option<u8>)
    ensures
        match value {
            Some(v) => digit_value(c) == Some(v as int) && v < 16,
            None => digit_value(c) is None,
        },
{
    let code: u32 = c as u32;
    if '0' <= c && c <= '9' {
        Some((code - 48) as u8)
    } else if 'a' <= c && c <= 'f' {
        Some((code - 87) as u8)
    } else if 'A' <= c && c <= 'F' {
        Some((code - 55) as u8)
    } else {
        None
    }
}

/// The two hexadecimal digits of a byte.
pub fn byte_to_hex(byte: u8) -> (text: String)
    ensures
        text@ == hex_of(seq![byte]),
{
    let mut text = String::new();
    text.append(digit_text(byte / 16));
    text.append(digit_text(byte % 16));
    assert(text@ =~= hex_of(seq![byte]));
    text
}

/// The first 32 of some bytes.
fn first_32(bytes: &Vec<u8>) -> (first: [u8; 32])
    requires
        bytes@.len() >= 32,
    ensures
        first@ == bytes@.take(32),
{
    let mut first: [u8; 32] = [0u8; 32];
    for i in 0..32
        invariant
            bytes@.len() >= 32,
            forall|j: int| 0 <= j < i ==> #[trigger] first@[j] == bytes@[j],
    {
        first[i] = bytes[i];
    }
    assert(first@ =~= bytes@.take(32));
    first
}

/// The node hash that some bytes start with.
pub fn trie_hash_from_bytes(bytes: &Vec<u8>) -> (hash: TrieHash)
    requires
        bytes@.len() >= TRIEHASH_ENCODED_SIZE,
    ensures
        hash.0@ == bytes@.take(TRIEHASH_ENCODED_SIZE as int),
{
    TrieHash(first_32(bytes))
}

impl BlockHeaderHash {
    /// The block hash that some bytes start with.
    pub fn from_bytes(bytes: &Vec<u8>) -> (hash: BlockHeaderHash)
        requires
            bytes@.len() >= BLOCK_HEADER_HASH_ENCODED_SIZE,
        ensures
            hash.0@ == bytes@.take(BLOCK_HEADER_HASH_ENCODED_SIZE as int),
    {
        BlockHeaderHash(first_32(bytes))
    }

    /// The lower-case hexadecimal form of the hash.
    pub fn to_hex(&self) -> (text: String)
        ensures
            text@ == hex_of(self.0@),
    {
        let mut text = String::new();
        for i in 0..32
            invariant
                text@ == hex_of(self.0@.take(i as int)),
        {
            let byte: u8 = self.0[i];
            text.append(digit_text(byte / 16));
            text.append(digit_text(byte % 16));
            assert(text@ =~= hex_of(self.0@.take(i + 1)));
        }
        assert(self.0@.take(32) =~= self.0@);
        text
    }

    /// The hash whose hexadecimal form a text is, if it is one.
    pub fn from_hex(text: &str) -> (hash: Option<BlockHeaderHash>)
        ensures
            match hash {
                Some(h) => is_hash_text(text@) && h.0@ == bytes_of_hex(text@),
                None => !is_hash_text(text@),
            },
    {
        if text.unicode_len() != 64 {
            return None;
        }
        let mut bytes: [u8; 32] = [0u8; 32];
        for i in 0..32
            invariant
                text@.len() == 64,
                forall|j: int| 0 <= j < 2 * i ==> digit_value(#[trigger] text@[j]) is Some,
                forall|j: int|
                    0 <= j < i ==> #[trigger] bytes@[j] == (16 * digit_value(text@[2 * j])->0
                        + digit_value(text@[2 * j + 1])->0) as u8,
        {
            let high: u8 = match value_of_digit(text.get_char(2 * i)) {
                Some(v) => v,
                None => {
                    return None;
                },
            };
            let low: u8 = match value_of_digit(text.get_char(2 * i + 1)) {
                Some(v) => v,
                None => {
                    return None;
                },
            };
            bytes[i] = 16 * high + low;
        }
        assert(bytes@ =~= bytes_of_hex(text@));
        Some(BlockHeaderHash(bytes))
    }
}

/// Two hashes with the same bytes are the same.
pub proof fn lemma_same_bytes(a: BlockHeaderHash, b: BlockHeaderHash)
    requires
        a.0@ == b.0@,
    ensures
        a == b,
{
    assert forall|i: int| 0 <= i < 32 implies a.0[i] == b.0[i] by {
        assert(a.0@[i] == b.0@[i]);
    }
    assert(a.0 =~= b.0);
}

/// The hexadecimal form of a hash is read back as that hash.
pub proof fn law_hex_round_trip(hash: BlockHeaderHash)
    ensures
        is_hash_text(hex_of(hash.0@)),
        bytes_of_hex(hex_of(hash.0@)) == hash.0@,
{
    let text = hex_of(hash.0@);
    assert forall|i: int| 0 <= i < 64 implies digit_value(#[trigger] text[i]) == Some(
        if i % 2 == 0 {
            hash.0@[i / 2] as int / 16
        } else {
            hash.0@[i / 2] as int % 16
        },
    ) by {}
    assert forall|i: int| 0 <= i < 32 implies bytes_of_hex(text)[i] == #[trigger] hash.0@[i] by {
        assert(digit_value(text[2 * i]) is Some);
        assert(digit_value(text[2 * i + 1]) is Some);
    }
    assert(bytes_of_hex(text) =~= hash.0@);
}

/// The hexadecimal form of some bytes has two digits for each, out of `0` to `9`
/// and `a` to `f`, the first of which counts sixteen times its value.
pub proof fn law_hex_digits_make_up_the_bytes(bytes: Seq<u8>, i: int)
    requires
        0 <= i < bytes.len(),
    ensures
        hex_of(bytes).len() == 2 * bytes.len(),
        ({
            let high = hex_of(bytes)[2 * i] as int;
            let low = hex_of(bytes)[2 * i + 1] as int;
            &&& 48 <= high <= 57 || 97 <= high <= 102
            &&& 48 <= low <= 57 || 97 <= low <= 102
            &&& bytes[i] == 16 * (if high <= 57 {
                high - 48
            } else {
                high - 87
            }) + (if low <= 57 {
                low - 48
            } else {
                low - 87
            })
        }),
{
    let byte = bytes[i];
    assert(0 <= byte as int / 16 < 16);
    assert(0 <= byte as int % 16 < 16);
    assert((2 * i) / 2 == i && (2 * i + 1) / 2 == i);
}

/// A text is that of a hash exactly if it has 64 characters, each out of `0` to
/// `9`, `a` to `f` and `A` to `F`.
pub proof fn law_hash_text_is_64_digits(text: Seq<char>)
    ensures
        is_hash_text(text) <==> text.len() == 64 && forall|i: int|
            0 <= i < 64 ==> {
                let c = (#[trigger] text[i]) as int;
                48 <= c <= 57 || 97 <= c <= 102 || 65 <= c <= 70
            },
{
    if is_hash_text(text) {
        assert forall|i: int| 0 <= i < 64 implies {
            let c = (#[trigger] text[i]) as int;
            48 <= c <= 57 || 97 <= c <= 102 || 65 <= c <= 70
        } by {
            assert(digit_value(text[i]) is Some);
        }
    }
}

/// A text of a hash stands for 32 bytes, each made up of two digits, of which
/// the first counts sixteen times its value; the case of a digit is the same to it.
pub proof fn law_hash_text_is_read_by_digits(text: Seq<char>, i: int)
    requires
        is_hash_text(text),
        0 <= i < 32,
    ensures
        bytes_of_hex(text).len() == 32,
        ({
            let high = text[2 * i] as int;
            let low = text[2 * i + 1] as int;
            bytes_of_hex(text)[i] == 16 * (if high <= 57 {
                high - 48
            } else if high <= 70 {
                high - 55
            } else {
                high - 87
            }) + (if low <= 57 {
                low - 48
            } else if low <= 70 {
                low - 55
            } else {
                low - 87
            })
        }),
{
    assert(digit_value(text[2 * i]) is Some);
    assert(digit_value(text[2 * i + 1]) is Some);
}

/// Two hashes are equal exactly if all their bytes are.
pub proof fn law_hashes_are_equal_by_bytes(
    a: BlockHeaderHash,
    b: BlockHeaderHash,
    c: TrieHash,
    d: TrieHash,
)
    ensures
        vstd::std_specs::cmp::PartialEqSpec::eq_spec(&a, &b) <==> forall|i: int|
            0 <= i < 32 ==> #[trigger] a.0@[i] == b.0@[i],
        vstd::std_specs::cmp::PartialEqSpec::eq_spec(&c, &d) <==> forall|i: int|
            0 <= i < 32 ==> #[trigger] c.0@[i] == d.0@[i],
{
    if forall|i: int| 0 <= i < 32 ==> #[trigger] a.0@[i] == b.0@[i] {
        assert(a.0@ =~= b.0@);
        lemma_same_bytes(a, b);
    }
    if forall|i: int| 0 <= i < 32 ==> #[trigger] c.0@[i] == d.0@[i] {
        assert(c.0@ =~= d.0@);
        lemma_same_bytes(BlockHeaderHash(c.0), BlockHeaderHash(d.0));
    }
}

} // verus!
