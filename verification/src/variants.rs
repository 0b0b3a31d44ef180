//! The four alphabets that a codec can be built on, and what makes an
//! alphabet fit for the codec.
use crate::hash;
use crate::model::tables_for;
use crate::sealed::Sealed;
use crate::util::contains;
use vstd::prelude::*;

verus! {

/// One guard symbol is set aside for every `GUARD_DIV` symbols of the
/// alphabet proper, rounding up.
pub const GUARD_DIV: usize = 12;

/// A byte that prints as one visible ASCII character or a space.
pub open spec fn is_symbol(b: u8) -> bool {
    0x20 <= b <= 0x7e
}

/// The symbols of `alphabet` that are no separators, in their order.
pub open spec fn without(alphabet: Seq<u8>, separators: Seq<u8>) -> Seq<u8>
    decreases alphabet.len(),
{
    if alphabet.len() == 0 {
        Seq::empty()
    } else if separators.contains(alphabet.last()) {
        without(alphabet.drop_last(), separators)
    } else {
        without(alphabet.drop_last(), separators).push(alphabet.last())
    }
}

/// The size of the alphabet proper: the alphabet less its separators.
pub open spec fn real_len(alphabet: Seq<u8>, separators: Seq<u8>) -> int {
    alphabet.len() - separators.len()
}

/// The number of guard symbols: the size of the alphabet proper divided by
/// `GUARD_DIV`, rounded up.
pub open spec fn guard_count(alphabet: Seq<u8>, separators: Seq<u8>) -> int {
    (real_len(alphabet, separators) + GUARD_DIV - 1) / (GUARD_DIV as int)
}

/// What the codec asks of an alphabet and its separators: no symbol occurs
/// twice, every separator is a symbol of the alphabet, every symbol prints,
/// there is a separator, and at least four symbols are left once separators
/// and guards are taken out.
pub open spec fn valid_config(alphabet: Seq<u8>, separators: Seq<u8>) -> bool {
    &&& alphabet.no_duplicates()
    &&& separators.no_duplicates()
    &&& forall|i: int| 0 <= i < separators.len() ==> alphabet.contains(#[trigger] separators[i])
    &&& forall|i: int| 0 <= i < alphabet.len() ==> is_symbol(#[trigger] alphabet[i])
    &&& separators.len() >= 1
    &&& real_len(alphabet, separators) - guard_count(alphabet, separators) >= 4
}

/// What is left of the alphabet: exactly its symbols that are no separators,
/// none of them twice where the alphabet has none twice.
pub proof fn lemma_without(alphabet: Seq<u8>, separators: Seq<u8>)
    ensures
        forall|b: u8|
            #[trigger] without(alphabet, separators).contains(b) <==> alphabet.contains(b)
                && !separators.contains(b),
        alphabet.no_duplicates() ==> without(alphabet, separators).no_duplicates(),
    decreases alphabet.len(),
{
    let kept = without(alphabet, separators);
    if alphabet.len() == 0 {
    } else {
        let front = alphabet.drop_last();
        let last = alphabet.last();
        let inner = without(front, separators);
        lemma_without(front, separators);
        assert forall|b: u8| #[trigger]
            kept.contains(b) <==> alphabet.contains(b) && !separators.contains(b) by {
            if kept.contains(b) {
                let k = choose|k: int| 0 <= k < kept.len() && kept[k] == b;
                if k < inner.len() {
                    assert(inner.contains(b));
                    let j = choose|j: int| 0 <= j < front.len() && front[j] == b;
                    assert(alphabet[j] == b);
                } else {
                    assert(alphabet[alphabet.len() - 1] == b);
                }
            }
            if alphabet.contains(b) && !separators.contains(b) {
                let j = choose|j: int| 0 <= j < alphabet.len() && alphabet[j] == b;
                if j < front.len() {
                    assert(front[j] == b);
                    assert(inner.contains(b));
                    let k = choose|k: int| 0 <= k < inner.len() && inner[k] == b;
                    assert(kept[k] == b);
                } else {
                    assert(kept[kept.len() - 1] == b);
                }
            }
        }
        if alphabet.no_duplicates() {
            if !separators.contains(last) {
                assert forall|x: int, y: int|
                    0 <= x < kept.len() && 0 <= y < kept.len() && x != y implies kept[x]
                    != kept[y] by {
                    if x < inner.len() && y < inner.len() {
                        assert(inner[x] != inner[y]);
                    } else {
                        let z = if x < inner.len() {
                            x
                        } else {
                            y
                        };
                        assert(inner.contains(inner[z]));
                        let j = choose|j: int| 0 <= j < front.len() && front[j] == inner[z];
                        assert(alphabet[j] != alphabet[alphabet.len() - 1]);
                    }
                }
            }
        }
    }
}

/// Taking the separators out of a valid alphabet leaves as many symbols as
/// the difference of the two lengths.
pub proof fn lemma_without_len(alphabet: Seq<u8>, separators: Seq<u8>)
    requires
        alphabet.no_duplicates(),
        separators.no_duplicates(),
        forall|i: int| 0 <= i < separators.len() ==> alphabet.contains(#[trigger] separators[i]),
    ensures
        without(alphabet, separators).len() == real_len(alphabet, separators),
{
    let kept = without(alphabet, separators);
    lemma_without(alphabet, separators);
    alphabet.unique_seq_to_set();
    separators.unique_seq_to_set();
    kept.unique_seq_to_set();
    vstd::seq_lib::seq_to_set_is_finite(alphabet);
    vstd::seq_lib::seq_to_set_is_finite(separators);
    let all = alphabet.to_set();
    let seps = separators.to_set();
    assert(kept.to_set() =~= all.difference(seps));
    assert(all.intersect(seps) =~= seps) by {
        assert forall|b: u8| seps.contains(b) implies all.contains(b) by {
            let i = choose|i: int| 0 <= i < separators.len() && separators[i] == b;
            assert(alphabet.contains(separators[i]));
        }
    }
    vstd::set_lib::lemma_set_difference_len(all, seps);
}

/// Takes the separators out of an alphabet.
pub fn strip_separators(alphabet: &[u8], separators: &[u8]) -> (kept: Vec<u8>)
    ensures
        kept@ == without(alphabet@, separators@),
{
    let mut kept: Vec<u8> = Vec::new();
    let mut i: usize = 0;
    while i < alphabet.len()
        invariant
            i <= alphabet@.len(),
            kept@ == without(alphabet@.take(i as int), separators@),
        decreases alphabet@.len() - i,
    {
        assert(alphabet@.take(i + 1).drop_last() == alphabet@.take(i as int));
        if !contains(separators, alphabet[i]) {
            kept.push(alphabet[i]);
        }
        i = i + 1;
    }
    assert(alphabet@.take(i as int) == alphabet@);
    kept
}

/// Counts the guards of an alphabet.
pub fn count_guards(alphabet: &[u8], separators: &[u8]) -> (count: usize)
    requires
        separators@.len() <= alphabet@.len(),
    ensures
        count == guard_count(alphabet@, separators@),
{
    let size: usize = alphabet.len() - separators.len();
    size / GUARD_DIV + (if size % GUARD_DIV == 0 {
        0
    } else {
        1
    })
}

/// One of the alphabets that a codec can be built on.
///
/// The set is closed: the four alphabets of this module are the only ones.
pub trait HashId: Sized + Sealed {
    /// The symbols of the alphabet, separators included.
    spec fn alphabet() -> Seq<u8>;

    /// The symbols that stand between the values of an id.
    spec fn separators() -> Seq<u8>;

    /// Every alphabet of the set is valid.
    proof fn lemma_valid()
        ensures
            valid_config(Self::alphabet(), Self::separators()),
    ;

    /// The alphabet.
    fn alph() -> (symbols: &'static [u8])
        ensures
            symbols@ == Self::alphabet(),
    ;

    /// The separators.
    fn sep() -> (symbols: &'static [u8])
        ensures
            symbols@ == Self::separators(),
    ;

    /// The size of the alphabet proper.
    fn real_symbols() -> (size: usize)
        ensures
            size == real_len(Self::alphabet(), Self::separators()),
    {
        proof {
            Self::lemma_valid();
        }
        Self::alph().len() - Self::sep().len()
    }

    /// The number of guard symbols.
    fn guard_symbols() -> (count: usize)
        ensures
            count == guard_count(Self::alphabet(), Self::separators()),
    {
        proof {
            Self::lemma_valid();
        }
        count_guards(Self::alph(), Self::sep())
    }

    /// The alphabet proper: the alphabet with the separators taken out.
    fn filtered() -> (kept: Vec<u8>)
        ensures
            kept@ == without(Self::alphabet(), Self::separators()),
    {
        strip_separators(Self::alph(), Self::sep())
    }

    /// A codec over this alphabet, keyed by `salt`, that does not pad its
    /// ids.
    fn with_salt<const SALT: usize>(salt: &[u8; SALT]) -> (codec: hash::HashId<Self, SALT>)
        ensures
            codec@ == tables_for(Self::alphabet(), Self::separators(), salt@),
            codec@.valid(),
            codec.min_length() == 0,
    {
        proof {
            Self::lemma_valid();
        }
        hash::HashId::init_salt_len(salt, None, Self::alph(), Self::sep())
    }

    /// A codec over this alphabet, keyed by `salt`, whose ids have at least
    /// `min_len` bytes. `None` and `Some(0)` ask for no padding.
    fn with_salt_and_len<const SALT: usize>(salt: &[u8; SALT], min_len: Option<usize>) -> (codec:
        hash::HashId<Self, SALT>)
        ensures
            codec@ == tables_for(Self::alphabet(), Self::separators(), salt@),
            codec@.valid(),
            codec.min_length() == match min_len {
                Some(len) => len as nat,
                None => 0,
            },
    {
        proof {
            Self::lemma_valid();
        }
        hash::HashId::init_salt_len(salt, min_len, Self::alph(), Self::sep())
    }
}

/// The symbols of [`HashIdDefault`].
pub const DEFAULT_ALPH: [u8; 62] = [
    'a' as u8, 'b' as u8, 'c' as u8, 'd' as u8, 'e' as u8, 'f' as u8, 'g' as u8, 'h' as u8,
    'i' as u8, 'j' as u8, 'k' as u8, 'l' as u8, 'm' as u8, 'n' as u8, 'o' as u8, 'p' as u8,
    'q' as u8, 'r' as u8, 's' as u8, 't' as u8, 'u' as u8, 'v' as u8, 'w' as u8, 'x' as u8,
    'y' as u8, 'z' as u8, 'A' as u8, 'B' as u8, 'C' as u8, 'D' as u8, 'E' as u8, 'F' as u8,
    'G' as u8, 'H' as u8, 'I' as u8, 'J' as u8, 'K' as u8, 'L' as u8, 'M' as u8, 'N' as u8,
    'O' as u8, 'P' as u8, 'Q' as u8, 'R' as u8, 'S' as u8, 'T' as u8, 'U' as u8, 'V' as u8,
    'W' as u8, 'X' as u8, 'Y' as u8, 'Z' as u8, '1' as u8, '2' as u8, '3' as u8, '4' as u8,
    '5' as u8, '6' as u8, '7' as u8, '8' as u8, '9' as u8, '0' as u8,
];

/// The separators of [`HashIdDefault`].
pub const DEFAULT_SEP: [u8; 14] = [
    'c' as u8, 'f' as u8, 'h' as u8, 'i' as u8, 's' as u8, 't' as u8, 'u' as u8, 'C' as u8,
    'F' as u8, 'H' as u8, 'I' as u8, 'S' as u8, 'T' as u8, 'U' as u8,
];

/// The general alphabet: ASCII letters and digits.
#[derive(Debug, Clone, Copy)]
pub struct HashIdDefault;

impl Sealed for HashIdDefault {

}

impl HashId for HashIdDefault {
    open spec fn alphabet() -> Seq<u8> {
        DEFAULT_ALPH@
    }

    open spec fn separators() -> Seq<u8> {
        DEFAULT_SEP@
    }

    proof fn lemma_valid() {
    }

    fn alph() -> (symbols: &'static [u8]) {
        &DEFAULT_ALPH
    }

    fn sep() -> (symbols: &'static [u8]) {
        &DEFAULT_SEP
    }
}

/// The symbols of [`HashIdQr`].
pub const QR_ALPH: [u8; 45] = [
    '0' as u8, '1' as u8, '2' as u8, '3' as u8, '4' as u8, '5' as u8, '6' as u8, '7' as u8,
    '8' as u8, '9' as u8, 'A' as u8, 'B' as u8, 'C' as u8, 'D' as u8, 'E' as u8, 'F' as u8,
    'G' as u8, 'H' as u8, 'I' as u8, 'J' as u8, 'K' as u8, 'L' as u8, 'M' as u8, 'N' as u8,
    'O' as u8, 'P' as u8, 'Q' as u8, 'R' as u8, 'S' as u8, 'T' as u8, 'U' as u8, 'V' as u8,
    'W' as u8, 'X' as u8, 'Y' as u8, 'Z' as u8, ' ' as u8, '$' as u8, '%' as u8, '*' as u8,
    '+' as u8, '-' as u8, '.' as u8, '/' as u8, ':' as u8,
];

/// The separators of [`HashIdQr`].
pub const QR_SEP: [u8; 7] = [
    'C' as u8, 'F' as u8, 'H' as u8, 'I' as u8, 'S' as u8, 'T' as u8, 'U' as u8,
];

/// The alphabet of the alphanumeric mode of QR codes. An id over it makes a
/// small code.
#[derive(Debug, Clone, Copy)]
pub struct HashIdQr;

impl Sealed for HashIdQr {

}

impl HashId for HashIdQr {
    open spec fn alphabet() -> Seq<u8> {
        QR_ALPH@
    }

    open spec fn separators() -> Seq<u8> {
        QR_SEP@
    }

    proof fn lemma_valid() {
    }

    fn alph() -> (symbols: &'static [u8]) {
        &QR_ALPH
    }

    fn sep() -> (symbols: &'static [u8]) {
        &QR_SEP
    }
}

/// The symbols of [`HashIdB64`].
pub const B64_ALPH: [u8; 64] = [
    'A' as u8, 'B' as u8, 'C' as u8, 'D' as u8, 'E' as u8, 'F' as u8, 'G' as u8, 'H' as u8,
    'I' as u8, 'J' as u8, 'K' as u8, 'L' as u8, 'M' as u8, 'N' as u8, 'O' as u8, 'P' as u8,
    'Q' as u8, 'R' as u8, 'S' as u8, 'T' as u8, 'U' as u8, 'V' as u8, 'W' as u8, 'X' as u8,
    'Y' as u8, 'Z' as u8, 'a' as u8, 'b' as u8, 'c' as u8, 'd' as u8, 'e' as u8, 'f' as u8,
    'g' as u8, 'h' as u8, 'i' as u8, 'j' as u8, 'k' as u8, 'l' as u8, 'm' as u8, 'n' as u8,
    'o' as u8, 'p' as u8, 'q' as u8, 'r' as u8, 's' as u8, 't' as u8, 'u' as u8, 'v' as u8,
    'w' as u8, 'x' as u8, 'y' as u8, 'z' as u8, '1' as u8, '2' as u8, '3' as u8, '4' as u8,
    '5' as u8, '6' as u8, '7' as u8, '8' as u8, '9' as u8, '0' as u8, '-' as u8, '_' as u8,
];

/// The separators of [`HashIdB64`].
pub const B64_SEP: [u8; 16] = [
    'C' as u8, 'F' as u8, 'H' as u8, 'I' as u8, 'S' as u8, 'T' as u8, 'U' as u8, 'c' as u8,
    'f' as u8, 'h' as u8, 'i' as u8, 's' as u8, 't' as u8, 'u' as u8, '-' as u8, '_' as u8,
];

/// The alphabet of URL-safe base 64.
#[derive(Debug, Clone, Copy)]
pub struct HashIdB64;

impl Sealed for HashIdB64 {

}

impl HashId for HashIdB64 {
    open spec fn alphabet() -> Seq<u8> {
        B64_ALPH@
    }

    open spec fn separators() -> Seq<u8> {
        B64_SEP@
    }

    proof fn lemma_valid() {
    }

    fn alph() -> (symbols: &'static [u8]) {
        &B64_ALPH
    }

    fn sep() -> (symbols: &'static [u8]) {
        &B64_SEP
    }
}

/// The symbols of [`HashIdB32`].
pub const B32_ALPH: [u8; 32] = [
    'A' as u8, 'B' as u8, 'C' as u8, 'D' as u8, 'E' as u8, 'F' as u8, 'G' as u8, 'H' as u8,
    'I' as u8, 'J' as u8, 'K' as u8, 'L' as u8, 'M' as u8, 'N' as u8, 'O' as u8, 'P' as u8,
    'Q' as u8, 'R' as u8, 'S' as u8, 'T' as u8, 'U' as u8, 'V' as u8, 'W' as u8, 'X' as u8,
    'Y' as u8, 'Z' as u8, '2' as u8, '3' as u8, '4' as u8, '5' as u8, '6' as u8, '7' as u8,
];

/// The separators of [`HashIdB32`].
pub const B32_SEP: [u8; 7] = [
    'C' as u8, 'F' as u8, 'H' as u8, 'I' as u8, 'S' as u8, 'T' as u8, 'U' as u8,
];

/// The alphabet of base 32.
#[derive(Debug, Clone, Copy)]
pub struct HashIdB32;

impl Sealed for HashIdB32 {

}

impl HashId for HashIdB32 {
    open spec fn alphabet() -> Seq<u8> {
        B32_ALPH@
    }

    open spec fn separators() -> Seq<u8> {
        B32_SEP@
    }

    proof fn lemma_valid() {
    }

    fn alph() -> (symbols: &'static [u8]) {
        &B32_ALPH
    }

    fn sep() -> (symbols: &'static [u8]) {
        &B32_SEP
    }
}

} // verus!
