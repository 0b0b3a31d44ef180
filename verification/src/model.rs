//! The codec as mathematics: what an id is, and what values an id stands
//! for, as functions of the codec's tables.
use crate::util::{
    digits,
    lemma_shuffled_is_permutation,
    nhash,
    segment_value,
    shuffled,
    DecodeErr,
};
use crate::variants::{
    guard_count,
    is_symbol,
    lemma_without,
    lemma_without_len,
    valid_config,
    without,
};
use vstd::prelude::*;

verus! {

/// The tables of one codec: its salt and the three disjoint sets of symbols
/// that it draws on.
pub struct Tables {
    /// The salt that keys every permutation.
    pub salt: Seq<u8>,
    /// The symbols that digits are written with, before any round.
    pub alphabet: Seq<u8>,
    /// The symbols that stand between two values.
    pub separators: Seq<u8>,
    /// The symbols that pad an id to its minimum length.
    pub guards: Seq<u8>,
}

/// The tables that an alphabet, its separators and a salt give: the
/// separators shuffled by the salt; the alphabet proper shuffled by the salt,
/// its first symbols set aside as guards and the rest kept for digits.
pub open spec fn tables_for(alphabet: Seq<u8>, separators: Seq<u8>, salt: Seq<u8>) -> Tables {
    let mixed = shuffled(without(alphabet, separators), salt);
    let count = guard_count(alphabet, separators);
    Tables {
        salt,
        alphabet: mixed.skip(count),
        separators: shuffled(separators, salt),
        guards: mixed.take(count),
    }
}

impl Tables {
    /// What encoding and decoding rely on: at least four digit symbols, none
    /// twice; a separator and a guard; no symbol in two of the three tables;
    /// every symbol printable.
    pub open spec fn valid(self) -> bool {
        &&& self.alphabet.len() >= 4
        &&& self.alphabet.no_duplicates()
        &&& self.separators.len() >= 1
        &&& self.guards.len() >= 1
        &&& forall|i: int|
            0 <= i < self.alphabet.len() ==> {
                &&& !self.separators.contains(#[trigger] self.alphabet[i])
                &&& !self.guards.contains(self.alphabet[i])
                &&& is_symbol(self.alphabet[i])
            }
        &&& forall|i: int|
            0 <= i < self.separators.len() ==> {
                &&& !self.guards.contains(#[trigger] self.separators[i])
                &&& is_symbol(self.separators[i])
            }
        &&& forall|i: int| 0 <= i < self.guards.len() ==> is_symbol(#[trigger] self.guards[i])
    }
}

/// A valid alphabet gives valid tables, whatever the salt.
pub proof fn lemma_tables_for_valid(alphabet: Seq<u8>, separators: Seq<u8>, salt: Seq<u8>)
    requires
        valid_config(alphabet, separators),
    ensures
        tables_for(alphabet, separators, salt).valid(),
{
    let t = tables_for(alphabet, separators, salt);
    let kept = without(alphabet, separators);
    let mixed = shuffled(kept, salt);
    let count = guard_count(alphabet, separators);
    lemma_without(alphabet, separators);
    lemma_without_len(alphabet, separators);
    lemma_shuffled_is_permutation(kept, salt);
    lemma_shuffled_is_permutation(separators, salt);
    assert forall|b: u8| mixed.contains(b) implies is_symbol(b) && !separators.contains(b) by {
        assert(kept.contains(b));
        let j = choose|j: int| 0 <= j < alphabet.len() && alphabet[j] == b;
        assert(is_symbol(alphabet[j]));
    }
    assert forall|i: int| 0 <= i < t.alphabet.len() implies {
        &&& !t.separators.contains(#[trigger] t.alphabet[i])
        &&& !t.guards.contains(t.alphabet[i])
        &&& is_symbol(t.alphabet[i])
    } by {
        let b = t.alphabet[i];
        if t.separators.contains(b) {
            assert(separators.contains(b));
        }
        if t.guards.contains(b) {
            let k = choose|k: int| 0 <= k < t.guards.len() && t.guards[k] == b;
            assert(mixed[k] == mixed[count + i]);
        }
    }
    assert forall|i: int| 0 <= i < t.separators.len() implies {
        &&& !t.guards.contains(#[trigger] t.separators[i])
        &&& is_symbol(t.separators[i])
    } by {
        let b = t.separators[i];
        assert(separators.contains(b));
        let j = choose|j: int| 0 <= j < separators.len() && separators[j] == b;
        assert(alphabet.contains(separators[j]));
        let k = choose|k: int| 0 <= k < alphabet.len() && alphabet[k] == b;
        assert(is_symbol(alphabet[k]));
        if t.guards.contains(b) {
            let g = choose|g: int| 0 <= g < t.guards.len() && t.guards[g] == b;
            assert(mixed[g] == b);
        }
    }
    assert forall|i: int| 0 <= i < t.guards.len() implies is_symbol(#[trigger] t.guards[i]) by {
        assert(mixed.contains(t.guards[i]));
    }
    assert(t.alphabet.no_duplicates()) by {
        assert forall|x: int, y: int|
            0 <= x < t.alphabet.len() && 0 <= y < t.alphabet.len() && x != y implies t.alphabet[x]
            != t.alphabet[y] by {
            assert(mixed[count + x] != mixed[count + y]);
        }
    }
}

/// The key of a call, before its first round: the lottery symbol, then as
/// much of the salt as fits, then zeros, as long as the alphabet.
pub open spec fn extended_key(t: Tables, lottery: u8) -> Seq<u8> {
    Seq::new(
        t.alphabet.len(),
        |i: int|
            if i == 0 {
                lottery
            } else if i - 1 < t.salt.len() {
                t.salt[i - 1]
            } else {
                0u8
            },
    )
}

/// The key with its part after the lottery symbol and the salt overwritten
/// by the symbols of `alphabet`, as far as there is room.
pub open spec fn reseeded(salt_len: nat, key: Seq<u8>, alphabet: Seq<u8>) -> Seq<u8> {
    Seq::new(
        key.len(),
        |i: int|
            if i > salt_len && i - salt_len - 1 < alphabet.len() {
                alphabet[i - salt_len - 1]
            } else {
                key[i]
            },
    )
}

/// The state that a call carries from one value to the next.
pub struct Round {
    /// The key that the next shuffle is keyed by, once reseeded.
    pub key: Seq<u8>,
    /// The alphabet as the last shuffle left it.
    pub alphabet: Seq<u8>,
}

/// The state before the first value of an id that starts with `lottery`.
pub open spec fn first_round(t: Tables, lottery: u8) -> Round {
    Round { key: extended_key(t, lottery), alphabet: t.alphabet }
}

/// One round: the key is reseeded from the alphabet, then the alphabet is
/// shuffled by the new key.
pub open spec fn next_round(t: Tables, r: Round) -> Round {
    let key = reseeded(t.salt.len(), r.key, r.alphabet);
    Round { key, alphabet: shuffled(r.alphabet, key) }
}

/// The state after `count` rounds.
pub open spec fn round_after(t: Tables, r: Round, count: nat) -> Round
    decreases count,
{
    if count == 0 {
        r
    } else {
        round_after(t, next_round(t, r), (count - 1) as nat)
    }
}

/// A state whose key is as long as the alphabet of the tables and whose
/// alphabet is a permutation of it.
pub open spec fn round_fits(t: Tables, r: Round) -> bool {
    &&& r.key.len() == t.alphabet.len()
    &&& r.alphabet.len() == t.alphabet.len()
    &&& r.alphabet.no_duplicates()
    &&& forall|b: u8| #[trigger] r.alphabet.contains(b) <==> t.alphabet.contains(b)
}

/// The first state of a call fits the tables, and a round keeps a state
/// fitting.
pub proof fn lemma_rounds_fit(t: Tables, r: Round, lottery: u8)
    requires
        t.valid(),
    ensures
        round_fits(t, first_round(t, lottery)),
        round_fits(t, r) ==> round_fits(t, next_round(t, r)),
{
    if round_fits(t, r) {
        let key = reseeded(t.salt.len(), r.key, r.alphabet);
        lemma_shuffled_is_permutation(r.alphabet, key);
        let next = next_round(t, r);
        assert forall|b: u8| #[trigger] next.alphabet.contains(b) <==> t.alphabet.contains(b) by {
            assert(next.alphabet.contains(b) <==> r.alphabet.contains(b));
        }
    }
}

/// The separator that follows the value at `index`, whose first digit is the
/// symbol `lead`: the value modulo the sum of `lead` and `index` picks it.
pub open spec fn separator_for(t: Tables, value: u64, lead: u8, index: nat) -> u8 {
    t.separators[((value as nat % (lead as nat + index)) % t.separators.len()) as int]
}

/// The digits of `values`, each value written in the alphabet of its own
/// round, with a separator between two values. `index` is the index of the
/// first of `values` in the whole list.
pub open spec fn body(t: Tables, r: Round, values: Seq<u64>, index: nat) -> Seq<u8>
    decreases values.len(),
{
    if values.len() == 0 {
        Seq::empty()
    } else {
        let next = next_round(t, r);
        let written = digits(values[0] as nat, next.alphabet);
        if values.len() == 1 {
            written
        } else {
            written + seq![separator_for(t, values[0], written[0], index)] + body(
                t,
                next,
                values.drop_first(),
                index + 1,
            )
        }
    }
}

/// The lottery symbol of `values`: their weighted hash picks it from the
/// alphabet.
pub open spec fn lottery_of(t: Tables, values: Seq<u64>) -> u8 {
    t.alphabet[(nhash(values) % t.alphabet.len()) as int]
}

/// The id of `values` before any padding: the lottery symbol and the body.
pub open spec fn unpadded(t: Tables, values: Seq<u64>) -> Seq<u8> {
    seq![lottery_of(t, values)] + body(t, first_round(t, lottery_of(t, values)), values, 0)
}

/// The guard that the weighted hash `nh` and the symbol `b` pick.
pub open spec fn guard_for(t: Tables, nh: nat, b: u8) -> u8 {
    t.guards[((nh + b as nat) % t.guards.len()) as int]
}

/// The middle `len` bytes of `buffer`. Of an odd number of bytes too many,
/// the larger half is dropped at the end.
pub open spec fn centered(buffer: Seq<u8>, len: nat) -> Seq<u8> {
    let excess = buffer.len() - len;
    buffer.subrange(excess / 2, excess / 2 + len)
}

/// `buffer` wrapped in the halves of `alphabet`, the second half in front and
/// the first half behind, again and again until it has `min_len` bytes. The
/// first wrap that exceeds `min_len` is cut down to its middle `min_len`
/// bytes.
pub open spec fn wrapped(buffer: Seq<u8>, alphabet: Seq<u8>, min_len: nat) -> Seq<u8>
    decreases min_len - buffer.len(),
{
    if buffer.len() >= min_len || alphabet.len() == 0 {
        buffer
    } else {
        let mid = alphabet.len() as int / 2;
        let grown = alphabet.skip(mid) + buffer + alphabet.take(mid);
        if grown.len() > min_len {
            centered(grown, min_len)
        } else {
            wrapped(grown, alphabet, min_len)
        }
    }
}

/// `id` brought to at least `min_len` bytes. A guard goes in front, picked by
/// the hash and the first symbol. If that is not enough a guard goes behind,
/// picked by the hash and the symbol at index 2 of what is there by then. If
/// that is not enough either, the result is wrapped in `alphabet`.
pub open spec fn padded(t: Tables, min_len: nat, nh: nat, id: Seq<u8>, alphabet: Seq<u8>) -> Seq<
    u8,
> {
    if id.len() >= min_len {
        id
    } else {
        let fronted = seq![guard_for(t, nh, id[0])] + id;
        if fronted.len() >= min_len {
            fronted
        } else {
            wrapped(fronted.push(guard_for(t, nh, fronted[2])), alphabet, min_len)
        }
    }
}

/// The id of `values` for a codec with the tables `t` and the minimum length
/// `min_len`. The empty list has the empty id.
pub open spec fn encoded(t: Tables, min_len: nat, values: Seq<u64>) -> Seq<u8> {
    if values.len() == 0 {
        Seq::empty()
    } else {
        let start = first_round(t, lottery_of(t, values));
        padded(
            t,
            min_len,
            nhash(values),
            unpadded(t, values),
            round_after(t, start, values.len()).alphabet,
        )
    }
}

/// The index of the first byte of `bytes` that is one of `symbols`, or the
/// length of `bytes` where there is none.
pub open spec fn first_member(bytes: Seq<u8>, symbols: Seq<u8>) -> int
    decreases bytes.len(),
{
    if bytes.len() == 0 {
        0
    } else if symbols.contains(bytes[0]) {
        0
    } else {
        1 + first_member(bytes.drop_first(), symbols)
    }
}

/// The index of the last byte of `bytes` that is one of `symbols`, or -1
/// where there is none.
pub open spec fn last_member(bytes: Seq<u8>, symbols: Seq<u8>) -> int
    decreases bytes.len(),
{
    if bytes.len() == 0 {
        -1
    } else if symbols.contains(bytes.last()) {
        bytes.len() - 1
    } else {
        last_member(bytes.drop_last(), symbols)
    }
}

/// What `first_member` finds.
pub proof fn lemma_first_member(bytes: Seq<u8>, symbols: Seq<u8>)
    ensures
        0 <= first_member(bytes, symbols) <= bytes.len(),
        first_member(bytes, symbols) < bytes.len() ==> symbols.contains(
            bytes[first_member(bytes, symbols)],
        ),
        forall|k: int| 0 <= k < first_member(bytes, symbols) ==> !symbols.contains(bytes[k]),
    decreases bytes.len(),
{
    if bytes.len() == 0 {
    } else if symbols.contains(bytes[0]) {
    } else {
        let rest = bytes.drop_first();
        lemma_first_member(rest, symbols);
        let f = first_member(rest, symbols);
        if f < rest.len() {
            assert(bytes[f + 1] == rest[f]);
        }
        assert forall|k: int| 0 <= k < f + 1 implies !symbols.contains(bytes[k]) by {
            if k > 0 {
                assert(bytes[k] == rest[k - 1]);
            }
        }
    }
}

/// What `last_member` finds.
pub proof fn lemma_last_member(bytes: Seq<u8>, symbols: Seq<u8>)
    ensures
        -1 <= last_member(bytes, symbols) < bytes.len(),
        last_member(bytes, symbols) >= 0 ==> symbols.contains(bytes[last_member(bytes, symbols)]),
        forall|k: int|
            last_member(bytes, symbols) < k < bytes.len() ==> !symbols.contains(bytes[k]),
    decreases bytes.len(),
{
    if bytes.len() == 0 {
    } else if symbols.contains(bytes.last()) {
    } else {
        let front = bytes.drop_last();
        lemma_last_member(front, symbols);
        let l = last_member(front, symbols);
        if l >= 0 {
            assert(bytes[l] == front[l]);
        }
        assert forall|k: int| l < k < bytes.len() implies !symbols.contains(bytes[k]) by {
            if k < front.len() {
                assert(bytes[k] == front[k]);
            }
        }
    }
}

/// The one index that has a symbol at it and none before it is what
/// `first_member` finds; so is the length, where no byte is a symbol.
pub proof fn lemma_first_member_is(bytes: Seq<u8>, symbols: Seq<u8>, at: int)
    requires
        0 <= at <= bytes.len(),
        at < bytes.len() ==> symbols.contains(bytes[at]),
        forall|k: int| 0 <= k < at ==> !symbols.contains(bytes[k]),
    ensures
        first_member(bytes, symbols) == at,
{
    lemma_first_member(bytes, symbols);
}

/// The one index that has a symbol at it and none after it is what
/// `last_member` finds; so is -1, where no byte is a symbol.
pub proof fn lemma_last_member_is(bytes: Seq<u8>, symbols: Seq<u8>, at: int)
    requires
        -1 <= at < bytes.len(),
        at >= 0 ==> symbols.contains(bytes[at]),
        forall|k: int| at < k < bytes.len() ==> !symbols.contains(bytes[k]),
    ensures
        last_member(bytes, symbols) == at,
{
    lemma_last_member(bytes, symbols);
}

/// `input` without its envelope: where it holds a guard, everything up to
/// and with the first guard is dropped; where what is left holds a guard,
/// everything from the last one on is dropped.
pub open spec fn stripped(t: Tables, input: Seq<u8>) -> Seq<u8> {
    let first = first_member(input, t.guards);
    let rest = if first < input.len() {
        input.skip(first + 1)
    } else {
        input
    };
    let last = last_member(rest, t.guards);
    if last >= 0 {
        rest.take(last)
    } else {
        rest
    }
}

/// The values of the segments of `payload`, which separators divide, each
/// segment read in the alphabet of its own round. `None` where a segment has
/// no value.
pub open spec fn values_of(t: Tables, r: Round, payload: Seq<u8>) -> Option<Seq<u64>>
    decreases payload.len(),
    via values_of_decreases
{
    let next = next_round(t, r);
    let cut = first_member(payload, t.separators);
    let head = segment_value(payload.take(cut), next.alphabet);
    if cut >= payload.len() {
        match head {
            Some(value) => Some(seq![value]),
            None => None,
        }
    } else {
        match (head, values_of(t, next, payload.skip(cut + 1))) {
            (Some(value), Some(rest)) => Some(seq![value] + rest),
            _ => None,
        }
    }
}

#[via_fn]
proof fn values_of_decreases(t: Tables, r: Round, payload: Seq<u8>) {
    lemma_first_member(payload, t.separators);
}

/// The values found so far, followed by those that the rest of the payload
/// gives; `None` where the rest gives none.
pub open spec fn joined(found: Seq<u64>, rest: Option<Seq<u64>>) -> Option<Seq<u64>> {
    match rest {
        Some(more) => Some(found + more),
        None => None,
    }
}

/// What decoding `input` for `arity` values gives, without the check against
/// the encoder.
///
/// An input that is under two bytes long once stripped fails with `Hash`.
/// Its first byte is the lottery symbol and the rest the payload. A segment
/// without a value fails with `Value`. Otherwise a number of segments other
/// than `arity` fails with `TooFew` or `TooMany`.
pub open spec fn decoded(t: Tables, input: Seq<u8>, arity: nat) -> Result<Seq<u64>, DecodeErr> {
    let id = stripped(t, input);
    if id.len() < 2 {
        Err(DecodeErr::Hash)
    } else {
        match values_of(t, first_round(t, id[0]), id.skip(1)) {
            None => Err(DecodeErr::Value),
            Some(values) => if values.len() < arity {
                Err(DecodeErr::TooFew)
            } else if values.len() > arity {
                Err(DecodeErr::TooMany)
            } else {
                Ok(values)
            },
        }
    }
}

/// What the checked decoding of `input` gives: the values that `decoded`
/// finds, where their id is `input` byte for byte; `Hash` where it is not.
pub open spec fn checked(t: Tables, min_len: nat, input: Seq<u8>, arity: nat) -> Result<
    Seq<u64>,
    DecodeErr,
> {
    match decoded(t, input, arity) {
        Ok(values) => if encoded(t, min_len, values) == input {
            Ok(values)
        } else {
            Err(DecodeErr::Hash)
        },
        Err(e) => Err(e),
    }
}

} // verus!
