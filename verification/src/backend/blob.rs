//! The names of blobs.

use crate::backend::{small_letter, with_small_letters};
use crate::text::{chars_of, decimal, number_of, read_number, reading_undoes_writing, write_number};
use std::convert::Infallible;
use std::str::FromStr;
use uuid::Uuid;
use vstd::prelude::*;

verus! {

/// The lower-case hexadecimal digit for a number below sixteen.
pub open spec fn hex_digit(n: int) -> char {
    if n < 10 {
        ('0' as int + n) as char
    } else {
        ('a' as int + n - 10) as char
    }
}

/// The lowest `width` hexadecimal digits of a number, most significant first.
pub open spec fn hex_text(n: nat, width: nat) -> Seq<char>
    decreases width,
{
    if width == 0 {
        Seq::empty()
    } else {
        hex_text(n / 16, (width - 1) as nat).push(hex_digit((n % 16) as int))
    }
}

/// Thirty-two digits with a hyphen behind the eighth, twelfth, sixteenth and twentieth of them.
pub open spec fn hyphenated(digits: Seq<char>) -> Seq<char> {
    let hyphen = seq!['-'];
    digits.subrange(0, 8) + hyphen + digits.subrange(8, 12) + hyphen + digits.subrange(12, 16)
        + hyphen + digits.subrange(16, 20) + hyphen + digits.subrange(20, 32)
}

/// A UUID as text: thirty-two hexadecimal digits, most significant first, with hyphens.
pub open spec fn uuid_text(uuid: u128) -> Seq<char> {
    hyphenated(hex_text(uuid as nat, 32))
}

/// The number that a hexadecimal digit stands for, in either case.
pub open spec fn hex_value(c: char) -> Option<int> {
    if '0' as int <= c as int <= '9' as int {
        Some(c as int - '0' as int)
    } else if 'a' as int <= small_letter(c) as int <= 'f' as int {
        Some(small_letter(c) as int - 'a' as int + 10)
    } else {
        None
    }
}

/// The number that hexadecimal digits stand for, most significant first.
pub open spec fn hex_number(digits: Seq<char>) -> Option<nat>
    decreases digits.len(),
{
    if digits.len() == 0 {
        Some(0)
    } else {
        match (hex_number(digits.drop_last()), hex_value(digits.last())) {
            (Some(n), Some(d)) => Some((16 * n + d) as nat),
            _ => None,
        }
    }
}

/// The digits of a hyphenated text: all but the four characters where the hyphens stand.
pub open spec fn unhyphenated(text: Seq<char>) -> Seq<char> {
    text.subrange(0, 8) + text.subrange(9, 13) + text.subrange(14, 18) + text.subrange(19, 23)
        + text.subrange(24, 36)
}

/// The UUID that a hyphenated text denotes.
pub open spec fn hyphenated_uuid(text: Seq<char>) -> Option<nat> {
    if text.len() == 36 && text[8] == '-' && text[13] == '-' && text[18] == '-' && text[23] == '-' {
        hex_number(unhyphenated(text))
    } else {
        None
    }
}

/// The UUID that a text denotes: thirty-two hexadecimal digits, or a hyphenated text by itself,
/// in braces, or behind `urn:uuid:`. The case of letters does not count.
pub open spec fn uuid_of_text(text: Seq<char>) -> Option<u128> {
    let number = if text.len() == 32 {
        hex_number(text)
    } else if text.len() == 38 && text.first() == '{' && text.last() == '}' {
        hyphenated_uuid(text.subrange(1, 37))
    } else if text.len() == 45 && with_small_letters(text.take(9)) == "urn:uuid:"@ {
        hyphenated_uuid(text.skip(9))
    } else {
        hyphenated_uuid(text)
    };
    match number {
        Some(n) => Some(n as u128),
        None => None,
    }
}

/// `uuid::Uuid::from_str`: it reads the simple form, and the hyphenated form by itself, in braces
/// and as a URN, in either case, and nothing else.
#[verifier::external_body]
fn parse_uuid(text: &str) -> (uuid: Option<u128>)
    ensures
        uuid == uuid_of_text(text@),
{
    match Uuid::from_str(text) {
        Ok(parsed) => Some(parsed.as_u128()),
        Err(_) => None,
    }
}

/// How many numbers so many hexadecimal digits can tell apart.
spec fn hex_range(width: nat) -> nat
    decreases width,
{
    if width == 0 {
        1
    } else {
        16 * hex_range((width - 1) as nat)
    }
}

/// Numbers are read back from enough of their digits.
proof fn lemma_hex_text(n: nat, width: nat)
    ensures
        hex_text(n, width).len() == width,
        n < hex_range(width) ==> hex_number(hex_text(n, width)) == Some(n),
    decreases width,
{
    if width > 0 {
        let rest = (width - 1) as nat;
        lemma_hex_text(n / 16, rest);
        assert(hex_text(n, width).drop_last() =~= hex_text(n / 16, rest));
        assert(hex_value(hex_digit((n % 16) as int)) == Some((n % 16) as int));
    }
}

/// Every UUID is read back from its text.
pub proof fn a_uuid_is_read_from_its_text(uuid: u128)
    ensures
        uuid_of_text(uuid_text(uuid)) == Some(uuid),
{
    let digits = hex_text(uuid as nat, 32);
    let text = uuid_text(uuid);
    lemma_hex_text(uuid as nat, 32);
    reveal_with_fuel(hex_range, 33);
    assert(hex_range(32) == u128::MAX + 1);
    assert(unhyphenated(text) =~= digits);
    assert(text.len() == 36);
    assert(text[8] == '-' && text[13] == '-' && text[18] == '-' && text[23] == '-');
}

/// No digit is a dot.
proof fn lemma_digits_hold_no_dot(digits: Seq<char>)
    requires
        hex_number(digits) is Some,
    ensures
        !digits.contains('.'),
    decreases digits.len(),
{
    if digits.len() > 0 {
        lemma_digits_hold_no_dot(digits.drop_last());
        if digits.contains('.') {
            let k = choose|k: int| 0 <= k < digits.len() && digits[k] == '.';
            if k < digits.len() - 1 {
                assert(digits.drop_last()[k] == '.');
            }
        }
    }
}

/// A hyphenated text that denotes a UUID holds no dot.
proof fn lemma_hyphenated_holds_no_dot(text: Seq<char>)
    requires
        hyphenated_uuid(text) is Some,
    ensures
        !text.contains('.'),
{
    let digits = unhyphenated(text);
    lemma_digits_hold_no_dot(digits);
    if text.contains('.') {
        let k = choose|k: int| 0 <= k < text.len() && text[k] == '.';
        let at = if k < 8 {
            k
        } else if k < 13 {
            k - 1
        } else if k < 18 {
            k - 2
        } else if k < 23 {
            k - 3
        } else {
            k - 4
        };
        assert(digits[at] == '.');
    }
}

/// No text with a dot denotes a UUID.
pub proof fn a_text_with_a_dot_is_no_uuid(text: Seq<char>)
    requires
        text.contains('.'),
    ensures
        uuid_of_text(text) is None,
{
    let k = choose|k: int| 0 <= k < text.len() && text[k] == '.';
    if uuid_of_text(text) is Some {
        if text.len() == 32 {
            lemma_digits_hold_no_dot(text);
        } else if text.len() == 38 && text.first() == '{' && text.last() == '}' {
            let inner = text.subrange(1, 37);
            lemma_hyphenated_holds_no_dot(inner);
            assert(inner[k - 1] == '.');
        } else if text.len() == 45 && with_small_letters(text.take(9)) == "urn:uuid:"@ {
            let inner = text.skip(9);
            lemma_hyphenated_holds_no_dot(inner);
            if k < 9 {
                reveal_strlit("urn:uuid:");
                assert(with_small_letters(text.take(9))[k] == small_letter(text[k]));
            } else {
                assert(inner[k - 9] == '.');
            }
        } else {
            lemma_hyphenated_holds_no_dot(text);
        }
    }
}

/// The `Display` of `uuid::Uuid`: hyphenated lower-case hexadecimal digits.
#[verifier::external_body]
fn write_uuid(uuid: u128) -> (text: String)
    ensures
        text@ == uuid_text(uuid),
{
    Uuid::from_u128(uuid).to_string()
}

/// The name of a blob.
#[derive(Debug, PartialEq, Eq, PartialOrd, Ord, Hash)]
pub enum BlobId {
    /// Data blob for storage backends
    Uuid(u128),
    /// Meta dir entry for the bootstrap
    Meta(u64),
    /// Lease dir entry for the bootstrap
    Lease(u128),
    /// Other (invalid) blob name
    Other(String),
}

/// The name of a blob, as mathematical data.
pub enum BlobName {
    Uuid(u128),
    Meta(u64),
    Lease(u128),
    Other(Seq<char>),
}

impl View for BlobId {
    type V = BlobName;

    open spec fn view(&self) -> BlobName {
        match *self {
            BlobId::Uuid(uuid) => BlobName::Uuid(uuid),
            BlobId::Meta(rev) => BlobName::Meta(rev),
            BlobId::Lease(uuid) => BlobName::Lease(uuid),
            BlobId::Other(text) => BlobName::Other(text@),
        }
    }
}

impl Clone for BlobId {
    fn clone(&self) -> (copy: Self)
        ensures
            copy@ == self@,
    {
        match self {
            BlobId::Uuid(uuid) => BlobId::Uuid(*uuid),
            BlobId::Meta(rev) => BlobId::Meta(*rev),
            BlobId::Lease(uuid) => BlobId::Lease(*uuid),
            BlobId::Other(text) => BlobId::Other(text.clone()),
        }
    }
}

impl BlobName {
    /// The name as text.
    pub open spec fn text(self) -> Seq<char> {
        match self {
            BlobName::Uuid(uuid) => uuid_text(uuid),
            BlobName::Meta(rev) => seq!['m', '.'] + decimal(rev as nat),
            BlobName::Lease(uuid) => seq!['l', '.'] + uuid_text(uuid),
            BlobName::Other(text) => text,
        }
    }
}

/// The text behind its first dot, if it has one, and how many characters stand before it.
pub open spec fn behind_first_dot(text: Seq<char>) -> Option<(int, Seq<char>)>
    decreases text.len(),
{
    if text.len() == 0 {
        None
    } else if text.first() == '.' {
        Some((0, text.drop_first()))
    } else {
        match behind_first_dot(text.drop_first()) {
            Some((n, rest)) => Some((n + 1, rest)),
            None => None,
        }
    }
}

/// The name that a text stands for. `whole` is the UUID that the text denotes, and `suffix` the
/// one that the text behind its first dot denotes.
pub open spec fn blob_name(text: Seq<char>, whole: Option<u128>, suffix: Option<u128>) -> BlobName {
    match whole {
        Some(uuid) => BlobName::Uuid(uuid),
        None => match behind_first_dot(text) {
            Some((n, rest)) if n == 1 && text.first() == 'm' => match number_of(rest) {
                Some(rev) => BlobName::Meta(rev),
                None => BlobName::Other(text),
            },
            Some((n, rest)) if n == 1 && text.first() == 'l' => match suffix {
                Some(uuid) => BlobName::Lease(uuid),
                None => BlobName::Other(text),
            },
            _ => BlobName::Other(text),
        },
    }
}

/// The UUID that stands behind the first dot of a text.
pub open spec fn suffix_uuid(text: Seq<char>) -> Option<u128> {
    match behind_first_dot(text) {
        Some((_, rest)) => uuid_of_text(rest),
        None => None,
    }
}

/// What stands behind the first dot of a text, and how many characters stand before the dot.
fn split_at_dot(text: &str) -> (parts: Option<(usize, &str)>)
    ensures
        match behind_first_dot(text@) {
            Some((n, rest)) => parts matches Some((m, r)) && m == n && r@ == rest && n
                < text@.len(),
            None => parts is None,
        },
{
    let chars = chars_of(text);
    let mut i: usize = 0;
    proof {
        assert(text@.skip(0) =~= text@);
    }
    while i < chars.len()
        invariant
            chars@ == text@,
            i <= chars.len(),
            behind_first_dot(text@) == (match behind_first_dot(text@.skip(i as int)) {
                Some((n, rest)) => Some((n + i, rest)),
                None => None,
            }),
        decreases chars.len() - i,
    {
        proof {
            assert(text@.skip(i as int).first() == chars@[i as int]);
            assert(text@.skip(i as int).drop_first() =~= text@.skip(i + 1));
        }
        if chars[i] == '.' {
            let rest = text.substring_char(i + 1, chars.len());
            proof {
                assert(rest@ =~= text@.skip(i + 1));
            }
            return Some((i, rest));
        }
        i += 1;
    }
    proof {
        assert(text@.skip(i as int) =~= Seq::<char>::empty());
    }
    None
}

impl BlobId {
    /// The name that a text stands for, given the UUID that the text denotes and the one that
    /// the text behind its first dot denotes.
    pub fn from_parts(s: &str, whole: Option<u128>, suffix: Option<u128>) -> (id: Self)
        ensures
            id@ == blob_name(s@, whole, suffix),
    {
        if let Some(uuid) = whole {
            return BlobId::Uuid(uuid);
        }
        if let Some((before, rest)) = split_at_dot(s) {
            if before == 1 {
                let prefix: char = s.get_char(0);
                if prefix == 'm' {
                    if let Some(rev) = read_number(rest) {
                        return BlobId::Meta(rev);
                    }
                } else if prefix == 'l' {
                    if let Some(uuid) = suffix {
                        return BlobId::Lease(uuid);
                    }
                }
            }
        }
        BlobId::Other(s.to_owned())
    }

    /// The name that a text stands for. Every name but an invalid one is read back from its
    /// text. No text with a dot denotes a UUID.
    pub fn from_str(s: &str) -> (id: Result<Self, Infallible>)
        ensures
            id matches Ok(name) && name@ == blob_name(
                s@,
                uuid_of_text(s@),
                suffix_uuid(s@),
            ) && forall|written: BlobName|
                s@ == #[trigger] written.text() && !(written is Other) ==> name@ == written,
            uuid_of_text(s@) is Some ==> !s@.contains('.'),
            suffix_uuid(s@) is Some ==> !behind_first_dot(s@)->Some_0.1.contains('.'),
    {
        let whole = parse_uuid(s);
        let suffix = match split_at_dot(s) {
            Some((_, rest)) => parse_uuid(rest),
            None => None,
        };
        let id = BlobId::from_parts(s, whole, suffix);
        proof {
            if s@.contains('.') {
                a_text_with_a_dot_is_no_uuid(s@);
            }
            if let Some((_, rest)) = behind_first_dot(s@) {
                if rest.contains('.') {
                    a_text_with_a_dot_is_no_uuid(rest);
                }
            }
            assert forall|written: BlobName|
                s@ == #[trigger] written.text() && !(written is Other) implies id@ == written by {
                match written {
                    BlobName::Uuid(uuid) => {
                        a_uuid_is_read_from_its_text(uuid);
                    },
                    BlobName::Meta(rev) => {
                        reading_undoes_writing(rev);
                        lemma_dotted('m', decimal(rev as nat));
                    },
                    BlobName::Lease(uuid) => {
                        lemma_dotted('l', uuid_text(uuid));
                        a_uuid_is_read_from_its_text(uuid);
                    },
                    BlobName::Other(text) => {},
                }
            }
        }
        Ok(id)
    }

    /// The name as text.
    pub fn to_string(&self) -> (text: String)
        ensures
            text@ == self@.text(),
    {
        match self {
            BlobId::Uuid(uuid) => write_uuid(*uuid),
            BlobId::Meta(rev) => {
                let mut text = "m.".to_owned();
                text.append(write_number(*rev).as_str());
                proof {
                    reveal_strlit("m.");
                    assert("m."@ =~= seq!['m', '.']);
                }
                text
            },
            BlobId::Lease(uuid) => {
                let mut text = "l.".to_owned();
                text.append(write_uuid(*uuid).as_str());
                proof {
                    reveal_strlit("l.");
                    assert("l."@ =~= seq!['l', '.']);
                }
                text
            },
            BlobId::Other(text) => text.clone(),
        }
    }
}

/// One character, a dot, and the rest.
proof fn lemma_dotted(c: char, rest: Seq<char>)
    requires
        c != '.',
    ensures
        behind_first_dot(seq![c, '.'] + rest) == Some((1int, rest)),
        (seq![c, '.'] + rest).first() == c,
        (seq![c, '.'] + rest).contains('.'),
{
    let text = seq![c, '.'] + rest;
    assert(text[1] == '.');
    assert(text.drop_first().first() == '.');
    assert(text.drop_first().drop_first() =~= rest);
    assert(behind_first_dot(text.drop_first()) == Some((0int, rest)));
}

/// A text is split at its first dot: no dot stands before it, and all that stands behind it is the
/// rest. There is nothing to split exactly where the text has no dot.
pub proof fn a_text_is_split_at_its_first_dot(text: Seq<char>)
    ensures
        match behind_first_dot(text) {
            Some((n, rest)) => {
                &&& 0 <= n < text.len()
                &&& text[n] == '.'
                &&& forall|i: int| 0 <= i < n ==> #[trigger] text[i] != '.'
                &&& rest == text.skip(n + 1)
            },
            None => !text.contains('.'),
        },
    decreases text.len(),
{
    if text.len() > 0 {
        let below = text.drop_first();
        a_text_is_split_at_its_first_dot(below);
        if text.first() == '.' {
            assert(text.skip(1) =~= below);
        } else {
            match behind_first_dot(below) {
                Some((n, rest)) => {
                    assert(text[n + 1] == below[n]);
                    assert forall|i: int| 0 <= i < n + 1 implies #[trigger] text[i] != '.' by {
                        if i > 0 {
                            assert(text[i] == below[i - 1]);
                        }
                    }
                    assert(below.skip(n + 1) =~= text.skip(n + 2));
                },
                None => {
                    if text.contains('.') {
                        let k = choose|k: int| 0 <= k < text.len() && text[k] == '.';
                        assert(below[k - 1] == '.');
                    }
                },
            }
        }
    }
}

/// What a text names: the blob of the UUID that it denotes; behind `m.` the state with the number
/// that stands there; behind `l.` the lease with the UUID that stands there; and nothing valid
/// else, in which case the text itself is kept.
pub proof fn a_name_says_what_a_blob_is(text: Seq<char>, whole: Option<u128>, suffix: Option<u128>)
    ensures
        match blob_name(text, whole, suffix) {
            BlobName::Uuid(uuid) => whole == Some(uuid),
            BlobName::Meta(rev) => {
                &&& whole is None
                &&& text.len() >= 2 && text[0] == 'm' && text[1] == '.'
                &&& number_of(text.skip(2)) == Some(rev)
            },
            BlobName::Lease(uuid) => {
                &&& whole is None
                &&& text.len() >= 2 && text[0] == 'l' && text[1] == '.'
                &&& suffix == Some(uuid)
            },
            BlobName::Other(kept) => {
                &&& whole is None
                &&& kept == text
                &&& text.len() >= 2 && text[0] == 'm' && text[1] == '.' ==> number_of(
                    text.skip(2),
                ) is None
                &&& text.len() >= 2 && text[0] == 'l' && text[1] == '.' ==> suffix is None
            },
        },
        text.len() >= 2 && text[0] != '.' && text[1] == '.' ==> suffix_uuid(text) == uuid_of_text(
            text.skip(2),
        ),
{
    a_text_is_split_at_its_first_dot(text);
    if text.len() >= 2 && text[0] != '.' && text[1] == '.' {
        match behind_first_dot(text) {
            Some((n, rest)) => {
                if n > 1 {
                    assert(text[1] != '.');
                }
                assert(n == 1);
            },
            None => {
                assert(text.contains(text[1]));
            },
        }
    }
}

/// A blob is seen as what its name says.
pub proof fn blob_ids_are_seen_in_full(id: BlobId)
    ensures
        match id {
            BlobId::Uuid(uuid) => id@ == BlobName::Uuid(uuid),
            BlobId::Meta(rev) => id@ == BlobName::Meta(rev),
            BlobId::Lease(uuid) => id@ == BlobName::Lease(uuid),
            BlobId::Other(text) => id@ == BlobName::Other(text@),
        },
{
}

/// The text of a name tells what it names: `m.` and the number of a state, `l.` and the UUID of a
/// lease, the UUID of any other blob, and an invalid name as it is.
pub proof fn a_name_is_written_with_its_kind(uuid: u128, rev: u64, text: Seq<char>)
    ensures
        BlobName::Uuid(uuid).text() == uuid_text(uuid),
        BlobName::Meta(rev).text().take(2) == "m."@,
        number_of(BlobName::Meta(rev).text().skip(2)) == Some(rev),
        BlobName::Lease(uuid).text().take(2) == "l."@,
        uuid_of_text(BlobName::Lease(uuid).text().skip(2)) == Some(uuid),
        BlobName::Other(text).text() == text,
{
    reveal_strlit("m.");
    reveal_strlit("l.");
    reading_undoes_writing(rev);
    a_uuid_is_read_from_its_text(uuid);
    assert(BlobName::Meta(rev).text().take(2) =~= "m."@);
    assert(BlobName::Lease(uuid).text().take(2) =~= "l."@);
    assert(BlobName::Meta(rev).text().skip(2) =~= decimal(rev as nat));
    assert(BlobName::Lease(uuid).text().skip(2) =~= uuid_text(uuid));
}

} // verus!
