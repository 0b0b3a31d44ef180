//! The codec: built once from an alphabet and a salt, it encodes lists of
//! values as ids and decodes ids back into the lists.
use crate::bytevec::ByteVec;
use crate::laws::lemma_min_length;
use crate::model::{
    body,
    checked,
    decoded,
    encoded,
    extended_key,
    first_member,
    first_round,
    joined,
    last_member,
    lemma_first_member,
    lemma_first_member_is,
    lemma_last_member,
    lemma_last_member_is,
    lemma_rounds_fit,
    lemma_tables_for_valid,
    next_round,
    reseeded,
    round_after,
    round_fits,
    separator_for,
    stripped,
    tables_for,
    unpadded,
    values_of,
    wrapped,
    Round,
    Tables,
};
use crate::text::{as_text, IdString};
use crate::util::{
    contains,
    digits,
    lemma_digits,
    lemma_nhash_bound,
    lemma_shuffled_is_permutation,
    make_hash_fast,
    make_nhash,
    shuffle,
    unhash,
    DecodeErr,
};
use crate::variants::{
    count_guards,
    is_symbol,
    lemma_without_len,
    strip_separators,
    valid_config,
    without,
};
use core::marker::PhantomData;
use vstd::prelude::*;
use vstd::slice::{slice_subrange, slice_to_vec};

verus! {

/// The capacity of the buffer that `encode_buf` hands out.
pub const BV_L_D: usize = 55;

/// A codec over the alphabet `H`, keyed by a salt of `SALT` bytes.
///
/// Its tables are fixed when it is built, and every call works on copies of
/// them: one codec can serve any number of calls.
#[derive(Debug)]
pub struct HashId<H, const SALT: usize> {
    salt: [u8; SALT],
    min_len: Option<usize>,
    hasher: PhantomData<H>,
    alphabet: Vec<u8>,
    separators: Vec<u8>,
    guards: Vec<u8>,
}

impl<H, const SALT: usize> View for HashId<H, SALT> {
    type V = Tables;

    closed spec fn view(&self) -> Tables {
        Tables {
            salt: self.salt@,
            alphabet: self.alphabet@,
            separators: self.separators@,
            guards: self.guards@,
        }
    }
}

impl<H, const SALT: usize> Clone for HashId<H, SALT> {
    /// A codec with the same tables and the same minimum length.
    fn clone(&self) -> (copy: Self)
        ensures
            copy@ == self@,
            copy.min_length() == self.min_length(),
    {
        proof {
            use_type_invariant(self);
        }
        let alphabet = self.alphabet.clone();
        let separators = self.separators.clone();
        let guards = self.guards.clone();
        HashId {
            salt: self.salt,
            min_len: self.min_len,
            hasher: PhantomData,
            alphabet,
            separators,
            guards,
        }
    }
}

impl<H, const SALT: usize> HashId<H, SALT> {
    /// The tables of a codec are valid.
    #[verifier::type_invariant]
    spec fn well_formed(self) -> bool {
        self@.valid()
    }

    /// The least number of bytes of an id; zero where none was set.
    pub closed spec fn min_length(&self) -> nat {
        match self.min_len {
            Some(len) => len as nat,
            None => 0,
        }
    }

    fn new(
        salt: [u8; SALT],
        min_len: Option<usize>,
        alphabet: Vec<u8>,
        separators: Vec<u8>,
        guards: Vec<u8>,
    ) -> (codec: Self)
        requires
            (Tables { salt: salt@, alphabet: alphabet@, separators: separators@, guards: guards@ })
                .valid(),
        ensures
            codec@ == (Tables {
                salt: salt@,
                alphabet: alphabet@,
                separators: separators@,
                guards: guards@,
            }),
            codec.min_length() == match min_len {
                Some(len) => len as nat,
                None => 0,
            },
    {
        HashId { salt, min_len, hasher: PhantomData, alphabet, separators, guards }
    }

    /// Builds the codec of an alphabet for `salt`: the separators and the
    /// alphabet proper are shuffled by the salt, and the first symbols of the
    /// alphabet are set aside as guards.
    pub(crate) fn init_salt_len(
        salt: &[u8; SALT],
        min_len: Option<usize>,
        alphabet: &[u8],
        separators: &[u8],
    ) -> (codec: Self)
        requires
            valid_config(alphabet@, separators@),
        ensures
            codec@ == tables_for(alphabet@, separators@, salt@),
            codec@.valid(),
            codec.min_length() == match min_len {
                Some(len) => len as nat,
                None => 0,
            },
    {
        proof {
            lemma_tables_for_valid(alphabet@, separators@, salt@);
            lemma_without_len(alphabet@, separators@);
            lemma_shuffled_is_permutation(without(alphabet@, separators@), salt@);
        }
        let mut seps: Vec<u8> = slice_to_vec(separators);
        let mut guards: Vec<u8> = strip_separators(alphabet, separators);
        shuffle(seps.as_mut_slice(), salt);
        shuffle(guards.as_mut_slice(), salt);
        let alph = guards.split_off(count_guards(alphabet, separators));
        let min_len: Option<usize> = match min_len {
            Some(0) => None,
            other => other,
        };
        HashId::new(*salt, min_len, alph, seps, guards)
    }

    /// The key of a call that starts with `lottery`: the lottery symbol, then
    /// as much of the salt as fits, then zeros.
    fn extend_key(&self, lottery: u8) -> (key: Vec<u8>)
        ensures
            key@ == extended_key(self@, lottery),
    {
        let size: usize = self.alphabet.len();
        let mut key: Vec<u8> = Vec::new();
        let mut i: usize = 0;
        while i < size
            invariant
                i <= size,
                size == self.alphabet@.len(),
                key@ == extended_key(self@, lottery).take(i as int),
            decreases size - i,
        {
            let b: u8 = if i == 0 {
                lottery
            } else if i - 1 < SALT {
                self.salt[i - 1]
            } else {
                0
            };
            key.push(b);
            i = i + 1;
        }
        key
    }

    /// Overwrites the part of `tmp` after the lottery symbol and the salt
    /// with the symbols of `alph`, as far as there is room.
    fn reseed_key(&self, tmp: &mut Vec<u8>, alph: &Vec<u8>)
        ensures
            final(tmp)@ == reseeded(self@.salt.len(), old(tmp)@, alph@),
    {
        if SALT < tmp.len() {
            let start: usize = SALT + 1;
            let mut i: usize = start;
            while i < tmp.len() && i - start < alph.len()
                invariant
                    start == SALT + 1,
                    start <= i <= tmp@.len(),
                    i - start <= alph@.len(),
                    tmp@.len() == old(tmp)@.len(),
                    forall|k: int| 0 <= k < start ==> tmp@[k] == old(tmp)@[k],
                    forall|k: int| start <= k < i ==> tmp@[k] == alph@[k - start],
                    forall|k: int| i <= k < tmp@.len() ==> tmp@[k] == old(tmp)@[k],
                decreases tmp@.len() - i,
            {
                tmp[i] = alph[i - start];
                i = i + 1;
            }
        }
    }

    /// The id of `values` as bytes, or `None` for no values.
    ///
    /// The id starts with the lottery symbol, which the weighted hash of the
    /// values picks. Each value follows in the digits of its own round, with
    /// a separator between two values. An id that is shorter than the
    /// minimum length is padded: with a guard in front, then one behind,
    /// then with the halves of the last alphabet wrapped round it.
    ///
    /// The id is put together in a vector: an id can be of any length, since
    /// neither the number of values nor the minimum length has a bound.
    pub fn encode_inner(&self, values: &[u64]) -> (id: Option<Vec<u8>>)
        ensures
            values@.len() == 0 <==> id is None,
            id matches Some(bytes) ==> {
                &&& bytes@ == encoded(self@, self.min_length(), values@)
                &&& bytes@.len() >= self.min_length()
                &&& bytes@.len() >= 2
            },
    {
        let count: usize = values.len();
        if count == 0 {
            return None;
        }
        let mut buffer: Vec<u8> = Vec::new();
        proof {
            use_type_invariant(self);
            lemma_min_length(self@, self.min_length(), values@);
            lemma_nhash_bound(values@);
            assert(values@.len() * u64::MAX <= u64::MAX * u64::MAX) by (nonlinear_arith)
                requires
                    values@.len() <= u64::MAX,
            ;
        }
        let ghost t = self@;
        let nh: u128 = make_nhash(values);
        let size: usize = self.alphabet.len();
        let lottery: u8 = self.alphabet[(nh % (size as u128)) as usize];
        buffer.push(lottery);
        let mut tmp: Vec<u8> = self.extend_key(lottery);
        let mut alph: Vec<u8> = self.alphabet.clone();
        let ghost start = first_round(t, lottery);
        proof {
            lemma_rounds_fit(t, start, lottery);
            assert(values@.skip(0) == values@);
        }
        let mut i: usize = 0;
        while i < count
            invariant
                i <= count,
                count == values@.len(),
                t == self@,
                t.valid(),
                round_fits(t, Round { key: tmp@, alphabet: alph@ }),
                unpadded(t, values@) == buffer@ + body(
                    t,
                    Round { key: tmp@, alphabet: alph@ },
                    values@.skip(i as int),
                    i as nat,
                ),
                round_after(t, Round { key: tmp@, alphabet: alph@ }, (count - i) as nat)
                    == round_after(t, start, count as nat),
                buffer@.len() >= 1 + i,
            decreases count - i,
        {
            let val: u64 = values[i];
            let ghost before = Round { key: tmp@, alphabet: alph@ };
            let ghost after = next_round(t, before);
            let ghost rest = values@.skip(i as int);
            let ghost written = digits(val as nat, after.alphabet);
            let ghost old_buffer = buffer@;
            proof {
                lemma_rounds_fit(t, before, lottery);
                lemma_digits(val as nat, after.alphabet);
                assert(rest.drop_first() == values@.skip(i + 1));
            }
            self.reseed_key(&mut tmp, &alph);
            shuffle(alph.as_mut_slice(), tmp.as_slice());
            let last = make_hash_fast(val, alph.as_slice());
            append(&mut buffer, slice_subrange(last.0.as_slice(), last.1, 32));
            if i + 1 < count {
                let lead: u8 = last.0[last.1];
                proof {
                    let k = choose|k: int| 0 <= k < t.alphabet.len() && t.alphabet[k] == lead;
                    assert(is_symbol(t.alphabet[k]));
                }
                let picked: u128 = (val as u128) % (lead as u128 + i as u128);
                let at: usize = (picked % (self.separators.len() as u128)) as usize;
                buffer.push(self.separators[at]);
                proof {
                    let sep = separator_for(t, val, lead, i as nat);
                    assert(old_buffer + (written + seq![sep] + body(
                        t,
                        after,
                        rest.drop_first(),
                        (i + 1) as nat,
                    )) =~= old_buffer + (written + seq![sep]) + body(
                        t,
                        after,
                        rest.drop_first(),
                        (i + 1) as nat,
                    ));
                }
            } else {
                proof {
                    assert(buffer@ + Seq::<u8>::empty() =~= buffer@);
                }
            }
            i = i + 1;
        }
        proof {
            assert(buffer@ + Seq::<u8>::empty() =~= buffer@);
        }
        match self.min_len {
            Some(len) => {
                if buffer.len() < len {
                    let guard_count: u128 = self.guards.len() as u128;
                    let first: u128 = buffer[0] as u128;
                    let front: u8 = self.guards[((nh + first) % guard_count) as usize];
                    buffer.insert(0, front);
                    assert(buffer@ =~= seq![front] + unpadded(t, values@));
                    if buffer.len() < len {
                        let third: u128 = buffer[2] as u128;
                        let back: u8 = self.guards[((nh + third) % guard_count) as usize];
                        buffer.push(back);
                        let mid: usize = size / 2;
                        let ghost target = buffer@;
                        while buffer.len() < len
                            invariant
                                size == alph@.len(),
                                size >= 4,
                                mid == size / 2,
                                wrapped(buffer@, alph@, len as nat) == wrapped(
                                    target,
                                    alph@,
                                    len as nat,
                                ),
                            decreases len - buffer@.len(),
                        {
                            let left: &[u8] = slice_subrange(alph.as_slice(), 0, mid);
                            let right: &[u8] = slice_subrange(alph.as_slice(), mid, size);
                            let mut grown: Vec<u8> = Vec::new();
                            append(&mut grown, right);
                            append(&mut grown, buffer.as_slice());
                            append(&mut grown, left);
                            assert(grown@ =~= alph@.skip(mid as int) + buffer@ + alph@.take(
                                mid as int,
                            ));
                            if grown.len() > len {
                                let excess: usize = grown.len() - len;
                                let marker: usize = excess / 2;
                                buffer = slice_to_vec(
                                    slice_subrange(grown.as_slice(), marker, marker + len),
                                );
                            } else {
                                buffer = grown;
                            }
                        }
                    }
                }
            },
            None => {},
        }
        Some(buffer)
    }

    /// The id of the one value `value`, as text.
    pub fn encode_one(&self, value: u64) -> (id: IdString)
        ensures
            id@ == as_text(encoded(self@, self.min_length(), seq![value])),
            id@.len() >= self.min_length(),
    {
        let values: [u64; 1] = [value];
        assert(values@ =~= seq![value]);
        self.encode(values.as_slice())
    }

    /// The id of `values`, as text. No values give the empty text.
    pub fn encode(&self, values: &[u64]) -> (id: IdString)
        ensures
            id@ == as_text(encoded(self@, self.min_length(), values@)),
            values@.len() == 0 ==> id@.len() == 0,
            values@.len() > 0 ==> id@.len() >= self.min_length(),
    {
        match self.encode_inner(values) {
            None => {
                IdString::new()
            },
            Some(bytes) => IdString::from_bytes(bytes.as_slice()),
        }
    }

    /// The id of `values` in a buffer of `BV_L_D` bytes, or `None` for no
    /// values. The buffer holds the first `BV_L_D` bytes of an id that is
    /// longer, and its length is that of the whole id.
    pub fn encode_buf(&self, values: &[u64]) -> (id: Option<ByteVec<BV_L_D>>)
        ensures
            values@.len() == 0 <==> id is None,
            id matches Some(buffer) ==> {
                &&& buffer.spec_len() == encoded(self@, self.min_length(), values@).len()
                &&& buffer@ == encoded(self@, self.min_length(), values@).take(
                    if buffer.spec_len() <= BV_L_D {
                        buffer.spec_len() as int
                    } else {
                        BV_L_D as int
                    },
                )
            },
    {
        match self.encode_inner(values) {
            None => None,
            Some(bytes) => Some(ByteVec::from_slice(bytes.as_slice())),
        }
    }

    /// The values of `input`, checked against the encoder: the values are
    /// returned only where their id is `input`, byte for byte. An input that
    /// decodes to values with another id fails with `Hash`.
    pub fn decode<const OUT: usize>(&self, input: &[u8]) -> (values: Result<[u64; OUT], DecodeErr>)
        ensures
            values matches Ok(found) ==> checked(self@, self.min_length(), input@, OUT as nat)
                == Ok::<Seq<u64>, DecodeErr>(found@),
            values matches Err(e) ==> checked(self@, self.min_length(), input@, OUT as nat)
                == Err::<Seq<u64>, DecodeErr>(e),
    {
        let out: [u64; OUT] = match self.decode_fast::<OUT>(input) {
            Ok(found) => found,
            Err(e) => {
                return Err(e);
            },
        };
        match self.encode_inner(out.as_slice()) {
            Some(again) => if same_bytes(again.as_slice(), input) {
                Ok(out)
            } else {
                Err(DecodeErr::Hash)
            },
            None => Err(DecodeErr::Hash),
        }
    }

    /// The `OUT` values of `input`, without the check against the encoder.
    pub fn decode_fast<const OUT: usize>(&self, input: &[u8]) -> (values: Result<
        [u64; OUT],
        DecodeErr,
    >)
        ensures
            values matches Ok(found) ==> decoded(self@, input@, OUT as nat) == Ok::<
                Seq<u64>,
                DecodeErr,
            >(found@),
            values matches Err(e) ==> decoded(self@, input@, OUT as nat) == Err::<
                Seq<u64>,
                DecodeErr,
            >(e),
    {
        self.decode_inner(input)
    }

    /// `input` without its envelope of guards and padding.
    fn strip<'a>(&self, input: &'a [u8]) -> (id: &'a [u8])
        ensures
            id@ == stripped(self@, input@),
    {
        let first: usize = find_first(input, self.guards.as_slice());
        let rest: &[u8] = if first < input.len() {
            slice_subrange(input, first + 1, input.len())
        } else {
            input
        };
        proof {
            lemma_last_member(rest@, self.guards@);
        }
        match find_last(rest, self.guards.as_slice()) {
            Some(last) => slice_subrange(rest, 0, last),
            None => rest,
        }
    }

    fn decode_inner<const OUT: usize>(&self, input: &[u8]) -> (values: Result<
        [u64; OUT],
        DecodeErr,
    >)
        ensures
            values matches Ok(found) ==> decoded(self@, input@, OUT as nat) == Ok::<
                Seq<u64>,
                DecodeErr,
            >(found@),
            values matches Err(e) ==> decoded(self@, input@, OUT as nat) == Err::<
                Seq<u64>,
                DecodeErr,
            >(e),
    {
        let id: &[u8] = self.strip(input);
        if id.len() < 2 {
            return Err(DecodeErr::Hash);
        }
        proof {
            use_type_invariant(self);
        }
        let ghost t = self@;
        let lottery: u8 = id[0];
        let payload: &[u8] = slice_subrange(id, 1, id.len());
        let mut tmp: Vec<u8> = self.extend_key(lottery);
        let mut alph: Vec<u8> = self.alphabet.clone();
        let ghost start = first_round(t, lottery);
        let mut out: Vec<u64> = Vec::new();
        let mut pos: usize = 0;
        let mut done: bool = false;
        proof {
            lemma_rounds_fit(t, start, lottery);
            assert(payload@.skip(0) == payload@);
            let all = values_of(t, start, payload@);
            if all is Some {
                assert(Seq::<u64>::empty() + all.unwrap() =~= all.unwrap());
            }
        }
        while !done
            invariant
                t == self@,
                t.valid(),
                stripped(t, input@).len() >= 2,
                payload@ == stripped(t, input@).skip(1),
                start == first_round(t, stripped(t, input@)[0]),
                pos <= payload@.len(),
                round_fits(t, Round { key: tmp@, alphabet: alph@ }),
                !done ==> values_of(t, start, payload@) == joined(
                    out@,
                    values_of(
                        t,
                        Round { key: tmp@, alphabet: alph@ },
                        payload@.skip(pos as int),
                    ),
                ),
                done ==> values_of(t, start, payload@) == Some(out@),
            decreases
                    payload@.len() - pos + (if done {
                        0int
                    } else {
                        1int
                    }),
        {
            let ghost before = Round { key: tmp@, alphabet: alph@ };
            let ghost after = next_round(t, before);
            let ghost rest = payload@.skip(pos as int);
            let ghost found = out@;
            let tail: &[u8] = slice_subrange(payload, pos, payload.len());
            let cut: usize = find_first(tail, self.separators.as_slice());
            proof {
                lemma_rounds_fit(t, before, lottery);
                lemma_first_member(rest, t.separators);
                assert(rest.take(cut as int) =~= payload@.subrange(pos as int, pos + cut));
                if cut < rest.len() {
                    assert(rest.skip(cut + 1) =~= payload@.skip(pos + cut + 1));
                }
            }
            self.reseed_key(&mut tmp, &alph);
            shuffle(alph.as_mut_slice(), tmp.as_slice());
            let segment: &[u8] = slice_subrange(payload, pos, pos + cut);
            match unhash(segment, alph.as_slice()) {
                Some(value) => {
                    out.push(value);
                },
                None => {
                    proof {
                        assert(values_of(t, before, rest) is None);
                    }
                    return Err(DecodeErr::Value);
                },
            }
            if pos + cut >= payload.len() {
                done = true;
                proof {
                    assert(found + seq![out@.last()] =~= out@);
                }
            } else {
                proof {
                    let more = values_of(t, after, rest.skip(cut + 1));
                    if more is Some {
                        assert(found + (seq![out@.last()] + more.unwrap()) =~= out@
                            + more.unwrap());
                    }
                }
                pos = pos + cut + 1;
            }
        }
        if out.len() < OUT {
            Err(DecodeErr::TooFew)
        } else if out.len() > OUT {
            Err(DecodeErr::TooMany)
        } else {
            let mut values: [u64; OUT] = [0u64; OUT];
            let mut i: usize = 0;
            while i < OUT
                invariant
                    i <= OUT,
                    out@.len() == OUT,
                    forall|k: int| 0 <= k < i ==> values@[k] == out@[k],
                decreases OUT - i,
            {
                values[i] = out[i];
                i = i + 1;
            }
            assert(values@ =~= out@);
            Ok(values)
        }
    }
}

/// Appends the bytes of `items` to `buffer`.
fn append(buffer: &mut Vec<u8>, items: &[u8])
    ensures
        final(buffer)@ == old(buffer)@ + items@,
{
    let mut i: usize = 0;
    while i < items.len()
        invariant
            i <= items@.len(),
            buffer@ == old(buffer)@ + items@.take(i as int),
        decreases items@.len() - i,
    {
        buffer.push(items[i]);
        i = i + 1;
    }
}

/// The index of the first byte of `bytes` that is one of `symbols`, or the
/// length of `bytes`.
fn find_first(bytes: &[u8], symbols: &[u8]) -> (at: usize)
    ensures
        at == first_member(bytes@, symbols@),
{
    let mut i: usize = 0;
    while i < bytes.len()
        invariant
            i <= bytes@.len(),
            forall|k: int| 0 <= k < i ==> !symbols@.contains(bytes@[k]),
        decreases bytes@.len() - i,
    {
        if contains(symbols, bytes[i]) {
            proof {
                lemma_first_member_is(bytes@, symbols@, i as int);
            }
            return i;
        }
        i = i + 1;
    }
    proof {
        lemma_first_member_is(bytes@, symbols@, i as int);
    }
    i
}

/// The index of the last byte of `bytes` that is one of `symbols`.
fn find_last(bytes: &[u8], symbols: &[u8]) -> (at: Option<usize>)
    ensures
        match at {
            Some(i) => i == last_member(bytes@, symbols@),
            None => last_member(bytes@, symbols@) == -1,
        },
{
    let mut i: usize = bytes.len();
    while i > 0
        invariant
            i <= bytes@.len(),
            forall|k: int| i <= k < bytes@.len() ==> !symbols@.contains(bytes@[k]),
        decreases i,
    {
        if contains(symbols, bytes[i - 1]) {
            proof {
                lemma_last_member_is(bytes@, symbols@, i - 1);
            }
            return Some(i - 1);
        }
        i = i - 1;
    }
    proof {
        lemma_last_member_is(bytes@, symbols@, -1);
    }
    None
}

/// Tells whether two slices hold the same bytes.
fn same_bytes(a: &[u8], b: &[u8]) -> (same: bool)
    ensures
        same == (a@ == b@),
{
    if a.len() != b.len() {
        return false;
    }
    let mut i: usize = 0;
    while i < a.len()
        invariant
            i <= a@.len(),
            a@.len() == b@.len(),
            forall|k: int| 0 <= k < i ==> a@[k] == b@[k],
        decreases a@.len() - i,
    {
        if a[i] != b[i] {
            return false;
        }
        i = i + 1;
    }
    assert(a@ =~= b@);
    true
}

} // verus!
