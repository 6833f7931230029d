//! The bootstrap file: the data that opens the first backend, written in base 58.

use vstd::prelude::*;

verus! {

/// The declared error of `bs58::decode`.
#[verifier::external_type_specification]
#[verifier::external_body]
pub struct ExDecodeError(bs58::decode::Error);

/// The number that bytes stand for, most significant byte first.
pub open spec fn be_value(bytes: Seq<u8>) -> nat
    decreases bytes.len(),
{
    if bytes.len() == 0 {
        0
    } else {
        256 * be_value(bytes.drop_last()) + bytes.last() as nat
    }
}

/// The bytes of a number, most significant byte first, and as few as can be.
pub open spec fn be_bytes(n: nat) -> Seq<u8>
    decreases n,
{
    if n == 0 {
        Seq::empty()
    } else {
        be_bytes(n / 256).push((n % 256) as u8)
    }
}

/// The digit for a number below fifty-eight: the digits but 0, the capital letters but I and O,
/// and the small letters but l.
pub open spec fn base58_digit(n: int) -> char {
    if n < 9 {
        ('1' as int + n) as char
    } else if n < 17 {
        ('A' as int + n - 9) as char
    } else if n < 22 {
        ('J' as int + n - 17) as char
    } else if n < 33 {
        ('P' as int + n - 22) as char
    } else if n < 44 {
        ('a' as int + n - 33) as char
    } else {
        ('m' as int + n - 44) as char
    }
}

/// The character is a digit of base 58.
pub open spec fn is_base58_digit(c: char) -> bool {
    exists|n: int| 0 <= n < 58 && #[trigger] base58_digit(n) == c
}

/// The number that a digit of base 58 stands for.
pub open spec fn base58_place(c: char) -> int {
    choose|n: int| 0 <= n < 58 && #[trigger] base58_digit(n) == c
}

/// A number in base 58, most significant digit first, and with as few digits as can be.
pub open spec fn base58_digits(n: nat) -> Seq<char>
    decreases n,
{
    if n == 0 {
        Seq::empty()
    } else {
        base58_digits(n / 58).push(base58_digit((n % 58) as int))
    }
}

/// The number that digits of base 58 stand for, most significant digit first.
pub open spec fn base58_value(digits: Seq<char>) -> nat
    decreases digits.len(),
{
    if digits.len() == 0 {
        0
    } else {
        (58 * base58_value(digits.drop_last()) + base58_place(digits.last())) as nat
    }
}

/// How often an item stands at the start of a sequence.
pub open spec fn leading<T>(s: Seq<T>, item: T) -> nat
    decreases s.len(),
{
    if s.len() > 0 && s.first() == item {
        1 + leading(s.drop_first(), item)
    } else {
        0
    }
}

/// Bytes in base 58: a 1 for every zero byte at the start, and then the number that the bytes
/// stand for.
pub open spec fn base58_text(bytes: Seq<u8>) -> Seq<char> {
    Seq::new(leading(bytes, 0u8), |i: int| '1') + base58_digits(be_value(bytes))
}

/// The bytes that a text in base 58 denotes: a zero byte for every 1 at the start, and then the
/// bytes of the number. A text with any other character than the digits denotes none.
pub open spec fn base58_bytes(text: Seq<char>) -> Option<Seq<u8>> {
    if forall|i: int| 0 <= i < text.len() ==> is_base58_digit(#[trigger] text[i]) {
        Some(Seq::new(leading(text, '1'), |i: int| 0u8) + be_bytes(base58_value(text)))
    } else {
        None
    }
}

/// `bs58::encode` and `into_string`, with the alphabet that is the default.
#[verifier::external_body]
fn encode_base58(bytes: &[u8]) -> (text: String)
    ensures
        text@ == base58_text(bytes@),
{
    bs58::encode(bytes).into_string()
}

/// `bs58::decode` and `into_vec`, with the alphabet that is the default. Which error comes out is
/// left open.
#[verifier::external_body]
fn decode_base58(text: &str) -> (bytes: Result<Vec<u8>, bs58::decode::Error>)
    ensures
        bytes is Ok <==> base58_bytes(text@) is Some,
        bytes matches Ok(v) ==> base58_bytes(text@) == Some(v@),
{
    bs58::decode(text).into_vec()
}

/// A digit stands for the number that it is written for.
proof fn lemma_base58_place(n: int)
    requires
        0 <= n < 58,
    ensures
        is_base58_digit(base58_digit(n)),
        base58_place(base58_digit(n)) == n,
        base58_digit(n) == '1' <==> n == 0,
{
    let c = base58_digit(n);
    let m = base58_place(c);
    assert(0 <= m < 58 && base58_digit(m) == c);
}

/// A number is read back from its digits. They start with no 1.
proof fn lemma_base58_digits(n: nat)
    ensures
        base58_value(base58_digits(n)) == n,
        forall|i: int|
            0 <= i < base58_digits(n).len() ==> is_base58_digit(#[trigger] base58_digits(n)[i]),
        n > 0 ==> base58_digits(n).len() > 0 && base58_digits(n).first() != '1',
        n == 0 ==> base58_digits(n).len() == 0,
    decreases n,
{
    if n > 0 {
        let before = base58_digits(n / 58);
        let digits = base58_digits(n);
        lemma_base58_digits(n / 58);
        lemma_base58_place((n % 58) as int);
        assert(digits.drop_last() =~= before);
        assert forall|i: int| 0 <= i < digits.len() implies is_base58_digit(
            #[trigger] digits[i],
        ) by {
            if i < before.len() {
                assert(digits[i] == before[i]);
            }
        }
    }
}

/// Digits behind ones stand for the same number, and the ones are counted.
proof fn lemma_leading_ones(count: nat, digits: Seq<char>)
    requires
        digits.len() == 0 || digits.first() != '1',
    ensures
        ({
            let text = Seq::new(count, |i: int| '1') + digits;
            &&& leading(text, '1') == count
            &&& base58_value(text) == base58_value(digits)
        }),
    decreases count, digits.len(),
{
    let text = Seq::new(count, |i: int| '1') + digits;
    if count > 0 {
        let less = Seq::new((count - 1) as nat, |i: int| '1') + digits;
        assert(text.drop_first() =~= less);
        lemma_leading_ones((count - 1) as nat, digits);
        lemma_leading_one_adds_nothing(less);
        assert(text =~= seq!['1'] + less);
    } else {
        assert(text =~= digits);
    }
}

/// A 1 at the start adds nothing to a number.
proof fn lemma_leading_one_adds_nothing(digits: Seq<char>)
    ensures
        base58_value(seq!['1'] + digits) == base58_value(digits),
    decreases digits.len(),
{
    let text = seq!['1'] + digits;
    lemma_base58_place(0);
    if digits.len() == 0 {
        assert(text.drop_last() =~= Seq::<char>::empty());
        assert(text.last() == base58_digit(0));
        assert(base58_value(text.drop_last()) == 0);
    } else {
        assert(text.drop_last() =~= seq!['1'] + digits.drop_last());
        assert(text.last() == digits.last());
        lemma_leading_one_adds_nothing(digits.drop_last());
    }
}

/// Bytes are what is left of their number behind the zero bytes at their start.
proof fn lemma_leading_zeros(bytes: Seq<u8>)
    ensures
        bytes == Seq::new(leading(bytes, 0u8), |i: int| 0u8) + be_bytes(be_value(bytes)),
    decreases bytes.len(),
{
    if bytes.len() > 0 && bytes.first() == 0 {
        let rest = bytes.drop_first();
        lemma_leading_zeros(rest);
        lemma_leading_zero_adds_nothing(rest);
        assert(bytes =~= seq![0u8] + rest);
        assert(bytes =~= Seq::new(leading(bytes, 0u8), |i: int| 0u8) + be_bytes(be_value(bytes)));
    } else {
        lemma_be_bytes(bytes);
        assert(bytes =~= Seq::new(leading(bytes, 0u8), |i: int| 0u8) + be_bytes(be_value(bytes)));
    }
}

/// A zero byte at the start adds nothing to a number.
proof fn lemma_leading_zero_adds_nothing(bytes: Seq<u8>)
    ensures
        be_value(seq![0u8] + bytes) == be_value(bytes),
    decreases bytes.len(),
{
    let more = seq![0u8] + bytes;
    if bytes.len() == 0 {
        assert(more.drop_last() =~= Seq::<u8>::empty());
        assert(be_value(more.drop_last()) == 0);
    } else {
        assert(more.drop_last() =~= seq![0u8] + bytes.drop_last());
        assert(more.last() == bytes.last());
        lemma_leading_zero_adds_nothing(bytes.drop_last());
    }
}

/// Bytes that start with no zero byte are those of their number.
proof fn lemma_be_bytes(bytes: Seq<u8>)
    requires
        bytes.len() == 0 || bytes.first() != 0,
    ensures
        be_bytes(be_value(bytes)) == bytes,
        bytes.len() > 0 ==> be_value(bytes) > 0,
    decreases bytes.len(),
{
    if bytes.len() > 0 {
        let before = bytes.drop_last();
        lemma_be_bytes(before);
        assert(before.len() == 0 ==> bytes.last() == bytes.first());
        let n = be_value(bytes);
        assert(n / 256 == be_value(before) && n % 256 == bytes.last());
        assert(before.push(bytes.last()) =~= bytes);
    }
}

/// Bytes are read back from their text in base 58.
pub proof fn bytes_are_read_from_base_58(bytes: Seq<u8>)
    ensures
        base58_bytes(base58_text(bytes)) == Some(bytes),
{
    let count = leading(bytes, 0u8);
    let digits = base58_digits(be_value(bytes));
    let text = base58_text(bytes);
    lemma_base58_digits(be_value(bytes));
    lemma_leading_ones(count, digits);
    lemma_leading_zeros(bytes);
    lemma_base58_place(0);
    assert forall|i: int| 0 <= i < text.len() implies is_base58_digit(#[trigger] text[i]) by {
        if i < count {
            assert(text[i] == base58_digit(0));
        } else {
            assert(text[i] == digits[i - count]);
        }
    }
}

/// Why the bootstrap could not be used.
#[derive(Clone, Copy, Debug, PartialEq, Eq, Structural)]
pub enum BootstrapError {
    /// The file is there already.
    Exists,
    /// The file could not be read.
    Unreadable,
    /// What the file holds is not in base 58.
    NotBase58,
    /// The bytes are no backend data.
    NotAccessible,
    /// The backend data could not be taken out of the bytes.
    NotDeserializable,
}

impl BootstrapError {
    /// What is wrong, in words.
    pub fn message(&self) -> (text: String)
        ensures
            text@ == (match *self {
                BootstrapError::Exists => "Bootstrap file at path already exists"@,
                BootstrapError::Unreadable => "Failed to read botstrap data"@,
                BootstrapError::NotBase58 => "Failed to decode bootstrap data"@,
                BootstrapError::NotAccessible => "Failed to access bootstrap data"@,
                BootstrapError::NotDeserializable => "Failed to deserialize bootstrap data"@,
            }),
    {
        match self {
            BootstrapError::Exists => "Bootstrap file at path already exists".to_owned(),
            BootstrapError::Unreadable => "Failed to read botstrap data".to_owned(),
            BootstrapError::NotBase58 => "Failed to decode bootstrap data".to_owned(),
            BootstrapError::NotAccessible => "Failed to access bootstrap data".to_owned(),
            BootstrapError::NotDeserializable => "Failed to deserialize bootstrap data".to_owned(),
        }
    }
}

/// What a bootstrap file holds for the given backend data.
pub fn encode_bootstrap(bytes: &[u8]) -> (text: String)
    ensures
        text@ == base58_text(bytes@),
{
    encode_base58(bytes)
}

/// The backend data that a bootstrap file holds. What `encode_bootstrap` wrote is read back.
pub fn decode_bootstrap(text: &str) -> (bytes: Result<Vec<u8>, BootstrapError>)
    ensures
        match base58_bytes(text@) {
            Some(b) => bytes matches Ok(v) && v@ == b,
            None => bytes == Err::<Vec<u8>, BootstrapError>(BootstrapError::NotBase58),
        },
        forall|b: Seq<u8>|
            text@ == #[trigger] base58_text(b) ==> (bytes matches Ok(v) && v@ == b),
{
    proof {
        assert forall|b: Seq<u8>| text@ == #[trigger] base58_text(b) implies base58_bytes(text@)
            == Some(b) by {
            bytes_are_read_from_base_58(b);
        }
    }
    match decode_base58(text) {
        Ok(bytes) => Ok(bytes),
        Err(_) => Err(BootstrapError::NotBase58),
    }
}

} // verus!
