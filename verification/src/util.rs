//! The building blocks of the codec: the keyed shuffle, the weighted hash
//! that picks the first symbol, and the digit codec for a single value.
use vstd::arithmetic::power::{
    lemma0_pow,
    lemma_pow0,
    lemma_pow_increases,
    lemma_pow_positive,
    pow,
};
use vstd::prelude::*;

verus! {

/// Why an id could not be decoded.
#[derive(Clone, Copy, Debug, PartialEq, Eq, Structural)]
pub enum DecodeErr {
    /// A segment holds a symbol that is no digit, or stands for a number
    /// beyond 64 bits.
    Value,
    /// The id is too short to hold a value, or it is not the id that its
    /// values encode to.
    Hash,
    /// The id holds fewer values than were asked for.
    TooFew,
    /// The id holds more values than were asked for.
    TooMany,
}

/// `values` with the elements at `i` and `j` exchanged.
pub open spec fn swapped(values: Seq<u8>, i: int, j: int) -> Seq<u8> {
    values.update(i, values[j]).update(j, values[i])
}

/// The shuffle from index `i` downwards, with the running accumulators `v`
/// and `p` as they stand before index `i` is handled.
///
/// Each step reduces `v` modulo the salt length, reads the salt byte `n` at
/// `v`, adds it to `p`, exchanges the element at `i` with the one at
/// `(n + v + p) mod i`, and advances `v`. All additions wrap.
pub open spec fn shuffled_from(values: Seq<u8>, salt: Seq<u8>, i: int, v: usize, p: usize) -> Seq<
    u8,
>
    decreases i,
{
    if i < 1 || salt.len() == 0 {
        values
    } else {
        let v = (v as int % salt.len() as int) as usize;
        let n = salt[v as int] as usize;
        let p = p.wrapping_add(n);
        let j = n.wrapping_add(v).wrapping_add(p) as int % i;
        shuffled_from(swapped(values, i, j), salt, i - 1, v.wrapping_add(1), p)
    }
}

/// The permutation of `values` keyed by `salt`. An empty salt leaves the
/// sequence as it is.
pub open spec fn shuffled(values: Seq<u8>, salt: Seq<u8>) -> Seq<u8> {
    shuffled_from(values, salt, values.len() - 1, 0, 0)
}

/// Exchanging two elements keeps the length, the set of elements and the
/// absence of duplicates.
pub proof fn lemma_swapped_is_permutation(values: Seq<u8>, i: int, j: int)
    requires
        0 <= i < values.len(),
        0 <= j < values.len(),
    ensures
        swapped(values, i, j).len() == values.len(),
        forall|b: u8| swapped(values, i, j).contains(b) <==> values.contains(b),
        values.no_duplicates() ==> swapped(values, i, j).no_duplicates(),
{
    let s = swapped(values, i, j);
    assert forall|b: u8| s.contains(b) <==> values.contains(b) by {
        if values.contains(b) {
            let k = choose|k: int| 0 <= k < values.len() && values[k] == b;
            let moved = if k == i {
                j
            } else if k == j {
                i
            } else {
                k
            };
            assert(s[moved] == b);
        }
    }
}

/// The shuffle is a permutation: it keeps the length, the set of elements and
/// the absence of duplicates, whatever the salt.
pub proof fn lemma_shuffled_from_is_permutation(
    values: Seq<u8>,
    salt: Seq<u8>,
    i: int,
    v: usize,
    p: usize,
)
    requires
        i < values.len(),
    ensures
        shuffled_from(values, salt, i, v, p).len() == values.len(),
        forall|b: u8| shuffled_from(values, salt, i, v, p).contains(b) <==> values.contains(b),
        values.no_duplicates() ==> shuffled_from(values, salt, i, v, p).no_duplicates(),
    decreases i,
{
    if i < 1 || salt.len() == 0 {
    } else {
        let v_next = (v as int % salt.len() as int) as usize;
        let n = salt[v_next as int] as usize;
        let p_next = p.wrapping_add(n);
        let j = n.wrapping_add(v_next).wrapping_add(p_next) as int % i;
        let next = swapped(values, i, j);
        lemma_swapped_is_permutation(values, i, j);
        lemma_shuffled_from_is_permutation(next, salt, i - 1, v_next.wrapping_add(1), p_next);
    }
}

/// The shuffle of a sequence is a permutation of it.
pub proof fn lemma_shuffled_is_permutation(values: Seq<u8>, salt: Seq<u8>)
    ensures
        shuffled(values, salt).len() == values.len(),
        forall|b: u8| shuffled(values, salt).contains(b) <==> values.contains(b),
        values.no_duplicates() ==> shuffled(values, salt).no_duplicates(),
{
    lemma_shuffled_from_is_permutation(values, salt, values.len() - 1, 0, 0);
}

/// Permutes `values` in place, keyed by `salt`: the same salt always gives
/// the same permutation, and an empty salt changes nothing.
pub fn shuffle(values: &mut [u8], salt: &[u8])
    ensures
        final(values)@ == shuffled(old(values)@, salt@),
{
    if salt.len() == 0 {
        return ;
    }
    let mut v: usize = 0;
    let mut p: usize = 0;
    let mut i: usize = values.len();
    if i == 0 {
        return ;
    }
    i = i - 1;
    while i >= 1
        invariant
            salt@.len() > 0,
            i < values@.len(),
            values@.len() == old(values)@.len(),
            shuffled_from(values@, salt@, i as int, v, p) == shuffled(old(values)@, salt@),
        decreases i,
    {
        v = v % salt.len();
        let n: usize = salt[v] as usize;
        p = p.wrapping_add(n);
        let j: usize = n.wrapping_add(v).wrapping_add(p) % i;
        let at_i: u8 = values[i];
        let at_j: u8 = values[j];
        values[i] = at_j;
        values[j] = at_i;
        v = v.wrapping_add(1);
        i = i - 1;
    }
}

/// The weighted hash of `values`: the sum over every index `i` of
/// `values[i] mod (i + 100)`.
pub open spec fn nhash(values: Seq<u64>) -> nat
    decreases values.len(),
{
    if values.len() == 0 {
        0
    } else {
        nhash(values.drop_last()) + (values.last() as nat) % ((values.len() + 99) as nat)
    }
}

/// Every term of the weighted hash is under 64 bits wide.
pub proof fn lemma_nhash_bound(values: Seq<u64>)
    ensures
        nhash(values) <= values.len() * u64::MAX,
    decreases values.len(),
{
    if values.len() > 0 {
        let front = values.drop_last();
        lemma_nhash_bound(front);
        let term = (values.last() as nat) % ((values.len() + 99) as nat);
        assert(term <= values.last()) by (nonlinear_arith)
            requires
                term == (values.last() as nat) % ((values.len() + 99) as nat),
        ;
        assert(values.len() * u64::MAX == front.len() * u64::MAX + u64::MAX) by (nonlinear_arith)
            requires
                values.len() == front.len() + 1,
        ;
    }
}

/// Computes the weighted hash of `values`. The sum is kept in 128 bits, which
/// hold it for a slice of any length.
pub fn make_nhash(values: &[u64]) -> (h: u128)
    ensures
        h == nhash(values@),
{
    let mut h: u128 = 0;
    let mut i: usize = 0;
    while i < values.len()
        invariant
            i <= values@.len(),
            h == nhash(values@.take(i as int)),
            h <= i * u64::MAX,
        decreases values@.len() - i,
    {
        assert(values@.take(i + 1).drop_last() == values@.take(i as int));
        let value: u64 = values[i];
        let term: u128 = (value as u128) % (i as u128 + 100);
        assert(term <= value) by (nonlinear_arith)
            requires
                term == (value as u128) % ((i + 100) as u128),
        ;
        assert((i + 1) * u64::MAX == i * u64::MAX + u64::MAX && (i + 1) * u64::MAX <= u64::MAX
            * u64::MAX) by (nonlinear_arith)
            requires
                i < u64::MAX,
        ;
        h = h + term;
        i = i + 1;
    }
    assert(values@.take(i as int) == values@);
    h
}

/// The digits of `value` in the base given by the length of `alphabet`, most
/// significant first, each written as the alphabet symbol at the digit's
/// value. Zero has the single digit `alphabet[0]`. A base under two has no
/// digits.
pub open spec fn digits(value: nat, alphabet: Seq<u8>) -> Seq<u8>
    decreases value,
    via digits_decreases
{
    if alphabet.len() < 2 {
        Seq::empty()
    } else if value < alphabet.len() {
        seq![alphabet[value as int]]
    } else {
        digits(value / alphabet.len(), alphabet).push(alphabet[(value % alphabet.len()) as int])
    }
}

#[via_fn]
proof fn digits_decreases(value: nat, alphabet: Seq<u8>) {
    let a = alphabet.len();
    if a >= 2 && value >= a {
        assert(value / a < value) by (nonlinear_arith)
            requires
                a >= 2,
                value >= a,
        ;
    }
}

/// The index of the first occurrence of `b` in `alphabet`, or the length of
/// `alphabet` where `b` does not occur.
pub open spec fn position(alphabet: Seq<u8>, b: u8) -> int
    decreases alphabet.len(),
{
    if alphabet.len() == 0 {
        0
    } else if alphabet[0] == b {
        0
    } else {
        1 + position(alphabet.drop_first(), b)
    }
}

/// The number that `segment` denotes in the base given by the length of
/// `alphabet`: the sum over every index `i` of the position of `segment[i]`
/// times the base to the power of the number of symbols after `i`.
pub open spec fn digit_sum(segment: Seq<u8>, alphabet: Seq<u8>) -> nat
    decreases segment.len(),
{
    if segment.len() == 0 {
        0
    } else {
        (position(alphabet, segment[0]) * pow(
            alphabet.len() as int,
            (segment.len() - 1) as nat,
        )) as nat + digit_sum(segment.drop_first(), alphabet)
    }
}

/// The value of one segment, or `None` where it has none: a symbol of the
/// segment is not in the alphabet, the highest power of the base does not fit
/// in 64 bits, or the sum does not.
pub open spec fn segment_value(segment: Seq<u8>, alphabet: Seq<u8>) -> Option<u64> {
    if (forall|i: int| 0 <= i < segment.len() ==> alphabet.contains(#[trigger] segment[i])) && (
    segment.len() > 0 ==> pow(alphabet.len() as int, (segment.len() - 1) as nat) <= u64::MAX)
        && digit_sum(segment, alphabet) <= u64::MAX {
        Some(digit_sum(segment, alphabet) as u64)
    } else {
        None
    }
}

/// What `position` finds: the first index that holds `b`, or the length of
/// the alphabet exactly when `b` is absent.
pub proof fn lemma_position(alphabet: Seq<u8>, b: u8)
    ensures
        0 <= position(alphabet, b) <= alphabet.len(),
        position(alphabet, b) < alphabet.len() ==> alphabet[position(alphabet, b)] == b,
        forall|k: int| 0 <= k < position(alphabet, b) ==> alphabet[k] != b,
        position(alphabet, b) < alphabet.len() <==> alphabet.contains(b),
    decreases alphabet.len(),
{
    if alphabet.len() > 0 && alphabet[0] != b {
        let rest = alphabet.drop_first();
        lemma_position(rest, b);
        assert forall|k: int| 0 <= k < position(rest, b) + 1 implies alphabet[k] != b by {
            if k > 0 {
                assert(rest[k - 1] == alphabet[k]);
            }
        }
    }
}

/// In an alphabet without duplicates, the position of the symbol at `i` is
/// `i`.
pub proof fn lemma_position_of_symbol(alphabet: Seq<u8>, i: int)
    requires
        alphabet.no_duplicates(),
        0 <= i < alphabet.len(),
    ensures
        position(alphabet, alphabet[i]) == i,
{
    lemma_position(alphabet, alphabet[i]);
}

/// A digit's contribution to the value of a segment is never negative.
proof fn lemma_term_nonnegative(lead: int, a: int, e: nat)
    requires
        lead >= 0,
        a >= 0,
    ensures
        pow(a, e) >= 0,
        lead * pow(a, e) >= 0,
{
    if a > 0 {
        lemma_pow_positive(a, e);
    } else if e == 0 {
        lemma_pow0(a);
    } else {
        lemma0_pow(e);
    }
    assert(lead * pow(a, e) >= 0) by (nonlinear_arith)
        requires
            lead >= 0,
            pow(a, e) >= 0,
    ;
}

/// Appending a symbol to a segment multiplies its value by the base and adds
/// the position of the symbol.
pub proof fn lemma_digit_sum_push(segment: Seq<u8>, alphabet: Seq<u8>, b: u8)
    ensures
        digit_sum(segment.push(b), alphabet) == digit_sum(segment, alphabet) * alphabet.len()
            + position(alphabet, b),
    decreases segment.len(),
{
    let a = alphabet.len() as int;
    let longer = segment.push(b);
    lemma_position(alphabet, b);
    if segment.len() == 0 {
        lemma_pow0(a);
        assert(digit_sum(longer.drop_first(), alphabet) == 0);
        assert(digit_sum(segment, alphabet) * alphabet.len() == 0) by (nonlinear_arith)
            requires
                digit_sum(segment, alphabet) == 0,
        ;
    } else {
        let rest = segment.drop_first();
        assert(longer.drop_first() == rest.push(b));
        lemma_digit_sum_push(rest, alphabet, b);
        let lead = position(alphabet, segment[0]);
        lemma_position(alphabet, segment[0]);
        let e = (segment.len() - 1) as nat;
        lemma_term_nonnegative(lead, a, e);
        lemma_term_nonnegative(lead, a, (e + 1) as nat);
        assert(pow(a, (e + 1) as nat) == a * pow(a, e)) by {
            reveal(pow);
        }
        let low = lead * pow(a, e);
        let tail = digit_sum(rest, alphabet) as int;
        assert(digit_sum(longer, alphabet) == lead * (a * pow(a, e)) + digit_sum(
            rest.push(b),
            alphabet,
        ));
        assert(lead * (a * pow(a, e)) == low * a) by (nonlinear_arith)
            requires
                low == lead * pow(a, e),
        ;
        assert((low + tail) * a == low * a + tail * a) by (nonlinear_arith);
    }
}

/// The digits of a value denote that value: in an alphabet of at least two
/// symbols without duplicates, every digit is a symbol of the alphabet, their
/// sum is the value, and the highest power of the base is at most the value
/// (or 1, for zero).
pub proof fn lemma_digits(value: nat, alphabet: Seq<u8>)
    requires
        alphabet.len() >= 2,
        alphabet.no_duplicates(),
    ensures
        digits(value, alphabet).len() >= 1,
        forall|i: int|
            0 <= i < digits(value, alphabet).len() ==> alphabet.contains(
                #[trigger] digits(value, alphabet)[i],
            ),
        digit_sum(digits(value, alphabet), alphabet) == value,
        pow(alphabet.len() as int, (digits(value, alphabet).len() - 1) as nat) <= if value == 0 {
            1
        } else {
            value
        },
    decreases value,
{
    let a = alphabet.len();
    let low = alphabet[(value % a) as int];
    lemma_position_of_symbol(alphabet, (value % a) as int);
    if value < a {
        assert(digit_sum(digits(value, alphabet).drop_first(), alphabet) == 0);
        lemma_pow0(a as int);
        lemma_position_of_symbol(alphabet, value as int);
    } else {
        let high = digits(value / a, alphabet);
        assert(1 <= value / a < value) by (nonlinear_arith)
            requires
                value >= a,
                a >= 2,
        ;
        lemma_digits(value / a, alphabet);
        lemma_digit_sum_push(high, alphabet, low);
        assert((value / a) * a + value % a == value) by (nonlinear_arith)
            requires
                a > 0,
        ;
        let e = (high.len() - 1) as nat;
        assert(pow(a as int, (e + 1) as nat) == a * pow(a as int, e)) by {
            reveal(pow);
        }
        assert(a * pow(a as int, e) <= a * (value / a)) by (nonlinear_arith)
            requires
                pow(a as int, e) <= (value / a),
                a > 0,
        ;
        assert(a * (value / a) <= value) by (nonlinear_arith)
            requires
                a > 0,
        ;
    }
}

/// Decoding the digits of a 64-bit value gives the value back.
pub proof fn lemma_digit_round_trip(value: u64, alphabet: Seq<u8>)
    requires
        alphabet.len() >= 2,
        alphabet.no_duplicates(),
    ensures
        segment_value(digits(value as nat, alphabet), alphabet) == Some(value),
{
    lemma_digits(value as nat, alphabet);
}

/// Finds the first occurrence of `b` in `alphabet`.
pub fn position_of(alphabet: &[u8], b: u8) -> (found: Option<usize>)
    ensures
        match found {
            Some(p) => p == position(alphabet@, b) && p < alphabet@.len(),
            None => position(alphabet@, b) == alphabet@.len(),
        },
{
    let mut i: usize = 0;
    while i < alphabet.len()
        invariant
            i <= alphabet@.len(),
            forall|k: int| 0 <= k < i ==> alphabet@[k] != b,
        decreases alphabet@.len() - i,
    {
        if alphabet[i] == b {
            proof {
                lemma_position(alphabet@, b);
            }
            return Some(i);
        }
        i = i + 1;
    }
    proof {
        lemma_position(alphabet@, b);
    }
    None
}

/// Tells whether `b` occurs in `symbols`.
pub fn contains(symbols: &[u8], b: u8) -> (found: bool)
    ensures
        found == symbols@.contains(b),
{
    proof {
        lemma_position(symbols@, b);
    }
    position_of(symbols, b).is_some()
}

/// `base` to the power `exp`, or `None` where that does not fit in 64 bits.
pub fn checked_pow(base: u64, exp: usize) -> (power: Option<u64>)
    ensures
        power == if pow(base as int, exp as nat) <= u64::MAX {
            Some(pow(base as int, exp as nat) as u64)
        } else {
            None
        },
{
    let mut acc: u64 = 1;
    let mut k: usize = 0;
    proof {
        lemma_pow0(base as int);
    }
    while k < exp
        invariant
            k <= exp,
            acc == pow(base as int, k as nat),
        decreases exp - k,
    {
        assert(pow(base as int, (k + 1) as nat) == base * pow(base as int, k as nat)) by {
            reveal(pow);
        }
        match acc.checked_mul(base) {
            Some(next) => {
                acc = next;
            },
            None => {
                proof {
                    assert(base > 0) by (nonlinear_arith)
                        requires
                            acc * base > u64::MAX,
                    ;
                    lemma_pow_increases(base as nat, (k + 1) as nat, exp as nat);
                }
                return None;
            },
        }
        k = k + 1;
    }
    Some(acc)
}

/// Writes the digits of `val` in the base given by the length of `alph`.
///
/// The digits are written at the end of a buffer of 32 bytes; the second part
/// of the result is the index of the first digit. An alphabet of at least four
/// symbols never needs more than 32 digits for a 64-bit value.
pub fn make_hash_fast(val: u64, alph: &[u8]) -> (hash: ([u8; 32], usize))
    requires
        alph@.len() >= 4,
    ensures
        hash.1 < 32,
        hash.0@.skip(hash.1 as int) == digits(val as nat, alph@),
        forall|k: int| 0 <= k < hash.1 ==> hash.0@[k] == 0,
{
    let a: u64 = alph.len() as u64;
    let mut hash: [u8; 32] = [0u8; 32];
    let mut idx: usize = 31;
    hash[31] = alph[(val % a) as usize];
    let mut rest: u64 = val / a;
    proof {
        lemma_pow0(4);
        assert(pow(4, 1) == 4) by {
            reveal_with_fuel(pow, 2);
        }
        assert(rest * 4 <= val) by (nonlinear_arith)
            requires
                rest == val / a,
                a >= 4,
        ;
        if val < a {
            assert(rest == 0) by (nonlinear_arith)
                requires
                    rest == val / a,
                    0 <= val < a,
            ;
            assert(val % a == val) by (nonlinear_arith)
                requires
                    0 <= val < a,
            ;
        } else {
            assert(rest > 0) by (nonlinear_arith)
                requires
                    rest == val / a,
                    val >= a,
                    a > 0,
            ;
        }
        assert(digits(rest as nat, alph@).push(hash@[31]) =~= digits(rest as nat, alph@) + seq![
            hash@[31],
        ]);
    }
    while rest > 0
        invariant
            a == alph@.len(),
            a >= 4,
            idx < 32,
            forall|k: int| 0 <= k < idx ==> hash@[k] == 0,
            rest * pow(4, (32 - idx) as nat) <= val,
            digits(val as nat, alph@) == (if rest > 0 {
                digits(rest as nat, alph@)
            } else {
                Seq::<u8>::empty()
            }) + hash@.skip(idx as int),
        decreases rest,
    {
        let ghost count = (32 - idx) as nat;
        proof {
            lemma_pow_positive(4, count);
            if idx == 0 {
                assert(pow(4, 32) == 0x1_0000_0000_0000_0000) by {
                    reveal_with_fuel(pow, 33);
                }
                assert(rest * pow(4, 32) >= pow(4, 32)) by (nonlinear_arith)
                    requires
                        rest >= 1,
                        pow(4, 32) > 0,
                ;
            }
        }
        let ghost before = hash@;
        let ghost prior = rest;
        idx = idx - 1;
        hash[idx] = alph[(rest % a) as usize];
        rest = rest / a;
        proof {
            assert(pow(4, (count + 1) as nat) == 4 * pow(4, count)) by {
                reveal(pow);
            }
            assert(rest * (4 * pow(4, count)) <= prior * pow(4, count)) by (nonlinear_arith)
                requires
                    rest == prior / a,
                    a >= 4,
                    pow(4, count) > 0,
            ;
            let low = hash@[idx as int];
            assert(digits(rest as nat, alph@).push(low) + before.skip(idx + 1) =~= digits(
                rest as nat,
                alph@,
            ) + (seq![low] + before.skip(idx + 1)));
            assert(seq![low] + before.skip(idx + 1) =~= Seq::<u8>::empty() + (seq![low]
                + before.skip(idx + 1)));
            if prior < a {
                assert(rest == 0) by (nonlinear_arith)
                    requires
                        rest == prior / a,
                        0 <= prior < a,
                ;
                assert(prior % a == prior) by (nonlinear_arith)
                    requires
                        0 <= prior < a,
                ;
            } else {
                assert(rest > 0) by (nonlinear_arith)
                    requires
                        rest == prior / a,
                        prior >= a,
                        a > 0,
                ;
            }
        }
    }
    (hash, idx)
}

/// Reads one segment back into its value. `None` where a symbol of the
/// segment is not in the alphabet, or where a power, a product or the sum
/// leaves the 64-bit range.
pub fn unhash(input: &[u8], alph: &[u8]) -> (value: Option<u64>)
    ensures
        value == segment_value(input@, alph@),
{
    let a: u64 = alph.len() as u64;
    let n: usize = input.len();
    let mut acc: u64 = 0;
    let mut i: usize = 0;
    assert(input@.skip(0) == input@);
    while i < n
        invariant
            i <= n,
            n == input@.len(),
            a == alph@.len(),
            forall|k: int| 0 <= k < i ==> alph@.contains(#[trigger] input@[k]),
            i > 0 ==> pow(a as int, (n - 1) as nat) <= u64::MAX,
            acc + digit_sum(input@.skip(i as int), alph@) == digit_sum(input@, alph@),
        decreases n - i,
    {
        let ghost rest = input@.skip(i as int);
        let ghost e = (n - i - 1) as nat;
        proof {
            assert(rest.drop_first() == input@.skip(i + 1));
            lemma_position(alph@, input@[i as int]);
            lemma_term_nonnegative(position(alph@, input@[i as int]), a as int, e);
        }
        let pos: u64 = match position_of(alph, input[i]) {
            Some(p) => p as u64,
            None => {
                return None;
            },
        };
        let b: u64 = match checked_pow(a, n - i - 1) {
            Some(b) => b,
            None => {
                proof {
                    lemma_pow_increases(a as nat, e, (n - 1) as nat);
                }
                return None;
            },
        };
        let c: u64 = match pos.checked_mul(b) {
            Some(c) => c,
            None => {
                return None;
            },
        };
        acc = match acc.checked_add(c) {
            Some(sum) => sum,
            None => {
                return None;
            },
        };
        i = i + 1;
    }
    Some(acc)
}

} // verus!
