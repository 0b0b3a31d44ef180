//! What holds of every codec: decoding an id gives back the values that it
//! was made from, an id is as long as was asked for, and the checked decoding
//! accepts genuine ids only.
use crate::model::{
    body,
    centered,
    checked,
    decoded,
    encoded,
    first_round,
    guard_for,
    lemma_first_member_is,
    lemma_last_member_is,
    lemma_rounds_fit,
    lemma_tables_for_valid,
    lottery_of,
    next_round,
    padded,
    round_after,
    round_fits,
    separator_for,
    stripped,
    tables_for,
    unpadded,
    values_of,
    wrapped,
    Round,
    Tables,
};
use crate::text::{as_text, lemma_ascii_text};
use crate::util::{digits, lemma_digit_round_trip, lemma_digits, nhash, DecodeErr};
use crate::variants::{is_symbol, HashId};
use vstd::prelude::*;
use vstd::utf8::encode_utf8;

verus! {

/// No byte of `bytes` is a guard.
pub open spec fn guard_free(t: Tables, bytes: Seq<u8>) -> bool {
    forall|k: int| 0 <= k < bytes.len() ==> !t.guards.contains(#[trigger] bytes[k])
}

/// Every byte of `bytes` prints: it is a visible ASCII character or a space.
pub open spec fn all_symbols(bytes: Seq<u8>) -> bool {
    forall|k: int| 0 <= k < bytes.len() ==> is_symbol(#[trigger] bytes[k])
}

/// Bytes without a guard have no envelope to strip.
proof fn lemma_strip_plain(t: Tables, input: Seq<u8>)
    requires
        guard_free(t, input),
    ensures
        stripped(t, input) == input,
{
    lemma_first_member_is(input, t.guards, input.len() as int);
    lemma_last_member_is(input, t.guards, -1);
}

/// Stripping drops everything up to a guard that has no guard before it.
proof fn lemma_strip_front(t: Tables, pre: Seq<u8>, front: u8, id: Seq<u8>)
    requires
        guard_free(t, pre),
        guard_free(t, id),
        t.guards.contains(front),
    ensures
        stripped(t, pre + seq![front] + id) == id,
{
    let input = pre + seq![front] + id;
    assert forall|k: int| 0 <= k < pre.len() implies !t.guards.contains(input[k]) by {
        assert(input[k] == pre[k]);
    }
    lemma_first_member_is(input, t.guards, pre.len() as int);
    assert(input.skip(pre.len() as int + 1) =~= id);
    lemma_last_member_is(id, t.guards, -1);
}

/// Stripping drops everything outside two guards that have no guard before
/// the first, between them or after the second.
proof fn lemma_strip_both(
    t: Tables,
    pre: Seq<u8>,
    front: u8,
    id: Seq<u8>,
    back: u8,
    post: Seq<u8>,
)
    requires
        guard_free(t, pre),
        guard_free(t, id),
        guard_free(t, post),
        t.guards.contains(front),
        t.guards.contains(back),
    ensures
        stripped(t, pre + seq![front] + id + seq![back] + post) == id,
{
    let input = pre + seq![front] + id + seq![back] + post;
    assert forall|k: int| 0 <= k < pre.len() implies !t.guards.contains(input[k]) by {
        assert(input[k] == pre[k]);
    }
    lemma_first_member_is(input, t.guards, pre.len() as int);
    let rest = id + seq![back] + post;
    assert(input.skip(pre.len() as int + 1) =~= rest);
    assert forall|k: int| id.len() < k < rest.len() implies !t.guards.contains(rest[k]) by {
        assert(rest[k] == post[k - id.len() - 1]);
    }
    lemma_last_member_is(rest, t.guards, id.len() as int);
}

/// Wrapping an id that stands between two guards leaves it there: however
/// often the alphabet is wrapped round it, and wherever the result is cut,
/// stripping gives the id back. The result is as long as was asked for.
proof fn lemma_wrapped(
    t: Tables,
    pre: Seq<u8>,
    front: u8,
    id: Seq<u8>,
    back: u8,
    post: Seq<u8>,
    alphabet: Seq<u8>,
    min_len: nat,
)
    requires
        guard_free(t, pre),
        guard_free(t, id),
        guard_free(t, post),
        guard_free(t, alphabet),
        t.guards.contains(front),
        t.guards.contains(back),
        alphabet.len() > 0,
    ensures
        stripped(t, wrapped(pre + seq![front] + id + seq![back] + post, alphabet, min_len)) == id,
        wrapped(pre + seq![front] + id + seq![back] + post, alphabet, min_len).len() >= min_len,
    decreases min_len - (pre + seq![front] + id + seq![back] + post).len(),
{
    let buffer = pre + seq![front] + id + seq![back] + post;
    if buffer.len() >= min_len {
        lemma_strip_both(t, pre, front, id, back, post);
    } else {
        let mid = alphabet.len() as int / 2;
        let right = alphabet.skip(mid);
        let left = alphabet.take(mid);
        let grown = right + buffer + left;
        assert(guard_free(t, right)) by {
            assert forall|k: int| 0 <= k < right.len() implies !t.guards.contains(
                #[trigger] right[k],
            ) by {
                assert(right[k] == alphabet[mid + k]);
            }
        }
        assert(guard_free(t, left)) by {
            assert forall|k: int| 0 <= k < left.len() implies !t.guards.contains(
                #[trigger] left[k],
            ) by {
                assert(left[k] == alphabet[k]);
            }
        }
        if grown.len() > min_len {
            let excess = grown.len() - min_len;
            let drop_front = excess / 2;
            let drop_back = excess - drop_front;
            let new_pre = right.skip(drop_front) + pre;
            let new_post = post + left.take(left.len() - drop_back);
            assert(centered(grown, min_len) =~= new_pre + seq![front] + id + seq![back]
                + new_post);
            assert(guard_free(t, new_pre)) by {
                assert forall|k: int| 0 <= k < new_pre.len() implies !t.guards.contains(
                    #[trigger] new_pre[k],
                ) by {
                    if k < right.len() - drop_front {
                        assert(new_pre[k] == right[drop_front + k]);
                    } else {
                        assert(new_pre[k] == pre[k - (right.len() - drop_front)]);
                    }
                }
            }
            assert(guard_free(t, new_post)) by {
                assert forall|k: int| 0 <= k < new_post.len() implies !t.guards.contains(
                    #[trigger] new_post[k],
                ) by {
                    if k < post.len() {
                        assert(new_post[k] == post[k]);
                    } else {
                        assert(new_post[k] == left[k - post.len()]);
                    }
                }
            }
            lemma_strip_both(t, new_pre, front, id, back, new_post);
        } else {
            let new_pre = right + pre;
            let new_post = post + left;
            assert(grown =~= new_pre + seq![front] + id + seq![back] + new_post);
            assert(guard_free(t, new_pre)) by {
                assert forall|k: int| 0 <= k < new_pre.len() implies !t.guards.contains(
                    #[trigger] new_pre[k],
                ) by {
                    if k < right.len() {
                        assert(new_pre[k] == right[k]);
                    } else {
                        assert(new_pre[k] == pre[k - right.len()]);
                    }
                }
            }
            assert(guard_free(t, new_post)) by {
                assert forall|k: int| 0 <= k < new_post.len() implies !t.guards.contains(
                    #[trigger] new_post[k],
                ) by {
                    if k < post.len() {
                        assert(new_post[k] == post[k]);
                    } else {
                        assert(new_post[k] == left[k - post.len()]);
                    }
                }
            }
            lemma_wrapped(t, new_pre, front, id, back, new_post, alphabet, min_len);
        }
    }
}

/// The body of an id holds no guard, starts with a digit, and reads back as
/// the values that it was written from.
proof fn lemma_body(t: Tables, r: Round, values: Seq<u64>, index: nat)
    requires
        t.valid(),
        round_fits(t, r),
        values.len() >= 1,
    ensures
        body(t, r, values, index).len() >= 1,
        guard_free(t, body(t, r, values, index)),
        all_symbols(body(t, r, values, index)),
        values_of(t, r, body(t, r, values, index)) == Some(values),
    decreases values.len(),
{
    let next = next_round(t, r);
    let written = digits(values[0] as nat, next.alphabet);
    let whole = body(t, r, values, index);
    lemma_rounds_fit(t, r, 0);
    lemma_digits(values[0] as nat, next.alphabet);
    lemma_digit_round_trip(values[0], next.alphabet);
    assert forall|k: int| 0 <= k < written.len() implies !t.guards.contains(
        #[trigger] written[k],
    ) && !t.separators.contains(written[k]) && is_symbol(written[k]) by {
        let j = choose|j: int| 0 <= j < t.alphabet.len() && t.alphabet[j] == written[k];
        assert(!t.guards.contains(t.alphabet[j]));
    }
    if values.len() == 1 {
        lemma_first_member_is(whole, t.separators, whole.len() as int);
        assert(whole.take(whole.len() as int) =~= whole);
    } else {
        let sep = separator_for(t, values[0], written[0], index);
        let rest = values.drop_first();
        let tail = body(t, next, rest, index + 1);
        lemma_body(t, next, rest, index + 1);
        let at = ((values[0] as nat % (written[0] as nat + index)) % t.separators.len()) as int;
        assert(0 <= at < t.separators.len()) by (nonlinear_arith)
            requires
                at == ((values[0] as nat % (written[0] as nat + index)) % t.separators.len())
                    as int,
                t.separators.len() >= 1,
        ;
        assert forall|k: int| 0 <= k < whole.len() implies !t.guards.contains(
            #[trigger] whole[k],
        ) && is_symbol(whole[k]) by {
            if k < written.len() {
                assert(whole[k] == written[k]);
            } else if k == written.len() {
                assert(whole[k] == sep);
            } else {
                assert(whole[k] == tail[k - written.len() - 1]);
            }
        }
        assert forall|k: int| 0 <= k < written.len() implies !t.separators.contains(
            whole[k],
        ) by {
            assert(whole[k] == written[k]);
        }
        lemma_first_member_is(whole, t.separators, written.len() as int);
        assert(whole.take(written.len() as int) =~= written);
        assert(whole.skip(written.len() as int + 1) =~= tail);
    }
}

/// The id of a list of values before padding: it is at least two bytes long,
/// holds no guard, and decodes to the list.
proof fn lemma_unpadded(t: Tables, values: Seq<u64>)
    requires
        t.valid(),
        values.len() >= 1,
    ensures
        unpadded(t, values).len() >= 2,
        guard_free(t, unpadded(t, values)),
        all_symbols(unpadded(t, values)),
        values_of(t, first_round(t, unpadded(t, values)[0]), unpadded(t, values).skip(1)) == Some(
            values,
        ),
{
    let lottery = lottery_of(t, values);
    let start = first_round(t, lottery);
    let id = unpadded(t, values);
    let rest = body(t, start, values, 0);
    lemma_rounds_fit(t, start, lottery);
    lemma_body(t, start, values, 0);
    let at = (nhash(values) % t.alphabet.len()) as int;
    assert(!t.guards.contains(t.alphabet[at]));
    assert(id.skip(1) =~= rest);
    assert forall|k: int| 0 <= k < id.len() implies !t.guards.contains(#[trigger] id[k])
        && is_symbol(id[k]) by {
        if k > 0 {
            assert(id[k] == rest[k - 1]);
        }
    }
}

/// The alphabet after any number of rounds holds no guard.
proof fn lemma_round_after(t: Tables, r: Round, count: nat)
    requires
        t.valid(),
        round_fits(t, r),
    ensures
        round_fits(t, round_after(t, r, count)),
        guard_free(t, round_after(t, r, count).alphabet),
        all_symbols(round_after(t, r, count).alphabet),
    decreases count,
{
    if count == 0 {
        assert forall|k: int| 0 <= k < r.alphabet.len() implies !t.guards.contains(
            #[trigger] r.alphabet[k],
        ) && is_symbol(r.alphabet[k]) by {
            assert(r.alphabet.contains(r.alphabet[k]));
            let j = choose|j: int| 0 <= j < t.alphabet.len() && t.alphabet[j] == r.alphabet[k];
            assert(!t.guards.contains(t.alphabet[j]));
        }
    } else {
        lemma_rounds_fit(t, r, 0);
        lemma_round_after(t, next_round(t, r), (count - 1) as nat);
    }
}

/// Padding leaves the id in reach: stripping a padded id gives the id back,
/// and the padded id is as long as was asked for.
proof fn lemma_padded(t: Tables, min_len: nat, nh: nat, id: Seq<u8>, alphabet: Seq<u8>)
    requires
        t.valid(),
        guard_free(t, id),
        guard_free(t, alphabet),
        alphabet.len() > 0,
        id.len() >= 2,
    ensures
        stripped(t, padded(t, min_len, nh, id, alphabet)) == id,
        padded(t, min_len, nh, id, alphabet).len() >= min_len,
{
    if id.len() >= min_len {
        lemma_strip_plain(t, id);
    } else {
        let front = guard_for(t, nh, id[0]);
        let fronted = seq![front] + id;
        let empty = Seq::<u8>::empty();
        assert(t.guards.contains(front)) by {
            let at = ((nh + id[0] as nat) % t.guards.len()) as int;
            assert(t.guards[at] == front);
        }
        if fronted.len() >= min_len {
            lemma_strip_front(t, empty, front, id);
        } else {
            let back = guard_for(t, nh, fronted[2]);
            assert(t.guards.contains(back)) by {
                let at = ((nh + fronted[2] as nat) % t.guards.len()) as int;
                assert(t.guards[at] == back);
            }
            assert(fronted.push(back) =~= empty + seq![front] + id + seq![back] + empty);
            lemma_wrapped(t, empty, front, id, back, empty, alphabet, min_len);
        }
    }
}

/// Stripping the id of a list of values gives its unpadded form, whatever
/// the minimum length.
proof fn lemma_encoded(t: Tables, min_len: nat, values: Seq<u64>)
    requires
        t.valid(),
        values.len() >= 1,
    ensures
        stripped(t, encoded(t, min_len, values)) == unpadded(t, values),
        encoded(t, min_len, values).len() >= min_len,
        encoded(t, min_len, values).len() >= 2,
{
    let start = first_round(t, lottery_of(t, values));
    lemma_unpadded(t, values);
    lemma_rounds_fit(t, start, lottery_of(t, values));
    lemma_round_after(t, start, values.len());
    let alphabet = round_after(t, start, values.len()).alphabet;
    lemma_padded(t, min_len, nhash(values), unpadded(t, values), alphabet);
    lemma_padded_grows(t, min_len, nhash(values), unpadded(t, values), alphabet);
}

/// Wrapping never makes a buffer shorter.
proof fn lemma_wrapped_grows(buffer: Seq<u8>, alphabet: Seq<u8>, min_len: nat)
    ensures
        wrapped(buffer, alphabet, min_len).len() >= buffer.len() || wrapped(
            buffer,
            alphabet,
            min_len,
        ).len() >= min_len,
    decreases min_len - buffer.len(),
{
    if buffer.len() >= min_len || alphabet.len() == 0 {
    } else {
        let mid = alphabet.len() as int / 2;
        let grown = alphabet.skip(mid) + buffer + alphabet.take(mid);
        if grown.len() > min_len {
        } else {
            lemma_wrapped_grows(grown, alphabet, min_len);
        }
    }
}

/// Padding never makes an id shorter.
proof fn lemma_padded_grows(t: Tables, min_len: nat, nh: nat, id: Seq<u8>, alphabet: Seq<u8>)
    ensures
        padded(t, min_len, nh, id, alphabet).len() >= id.len(),
{
    if id.len() >= min_len {
    } else {
        let fronted = seq![guard_for(t, nh, id[0])] + id;
        if fronted.len() >= min_len {
        } else {
            lemma_wrapped_grows(fronted.push(guard_for(t, nh, fronted[2])), alphabet, min_len);
        }
    }
}

/// Wrapping printable bytes in a printable alphabet gives printable bytes.
proof fn lemma_wrapped_symbols(buffer: Seq<u8>, alphabet: Seq<u8>, min_len: nat)
    requires
        all_symbols(buffer),
        all_symbols(alphabet),
    ensures
        all_symbols(wrapped(buffer, alphabet, min_len)),
    decreases min_len - buffer.len(),
{
    if buffer.len() >= min_len || alphabet.len() == 0 {
    } else {
        let mid = alphabet.len() as int / 2;
        let right = alphabet.skip(mid);
        let left = alphabet.take(mid);
        let grown = right + buffer + left;
        assert forall|k: int| 0 <= k < grown.len() implies is_symbol(#[trigger] grown[k]) by {
            if k < right.len() {
                assert(grown[k] == alphabet[mid + k]);
            } else if k < right.len() + buffer.len() {
                assert(grown[k] == buffer[k - right.len()]);
            } else {
                assert(grown[k] == alphabet[k - right.len() - buffer.len()]);
            }
        }
        if grown.len() > min_len {
            let cut = centered(grown, min_len);
            let excess = grown.len() - min_len;
            assert forall|k: int| 0 <= k < cut.len() implies is_symbol(#[trigger] cut[k]) by {
                assert(cut[k] == grown[excess / 2 + k]);
            }
        } else {
            lemma_wrapped_symbols(grown, alphabet, min_len);
        }
    }
}

/// Every byte of an id prints: ids are ASCII text, whatever the values.
pub proof fn lemma_id_prints(t: Tables, min_len: nat, values: Seq<u64>)
    requires
        t.valid(),
    ensures
        all_symbols(encoded(t, min_len, values)),
{
    if values.len() > 0 {
        let nh = nhash(values);
        let id = unpadded(t, values);
        let start = first_round(t, lottery_of(t, values));
        lemma_unpadded(t, values);
        lemma_rounds_fit(t, start, lottery_of(t, values));
        lemma_round_after(t, start, values.len());
        let alphabet = round_after(t, start, values.len()).alphabet;
        if id.len() < min_len {
            let front = guard_for(t, nh, id[0]);
            let fronted = seq![front] + id;
            assert(is_symbol(front)) by {
                let at = ((nh + id[0] as nat) % t.guards.len()) as int;
                assert(t.guards[at] == front);
            }
            assert forall|k: int| 0 <= k < fronted.len() implies is_symbol(
                #[trigger] fronted[k],
            ) by {
                if k > 0 {
                    assert(fronted[k] == id[k - 1]);
                }
            }
            if fronted.len() < min_len {
                let back = guard_for(t, nh, fronted[2]);
                assert(is_symbol(back)) by {
                    let at = ((nh + fronted[2] as nat) % t.guards.len()) as int;
                    assert(t.guards[at] == back);
                }
                let both = fronted.push(back);
                assert forall|k: int| 0 <= k < both.len() implies is_symbol(
                    #[trigger] both[k],
                ) by {
                    if k < fronted.len() {
                        assert(both[k] == fronted[k]);
                    }
                }
                lemma_wrapped_symbols(both, alphabet, min_len);
            }
        }
    }
}

/// Decoding the id of a list of values gives the list back where as many
/// values are asked for as the list holds; where fewer are asked for it
/// fails with `TooMany`, and where more are asked for with `TooFew`. This
/// holds for every valid codec, every minimum length and every list of at
/// least one value.
pub proof fn lemma_decode_encoded(t: Tables, min_len: nat, values: Seq<u64>, arity: nat)
    requires
        t.valid(),
        values.len() >= 1,
    ensures
        decoded(t, encoded(t, min_len, values), arity) == if values.len() < arity {
            Err::<Seq<u64>, DecodeErr>(DecodeErr::TooFew)
        } else if values.len() > arity {
            Err::<Seq<u64>, DecodeErr>(DecodeErr::TooMany)
        } else {
            Ok::<Seq<u64>, DecodeErr>(values)
        },
{
    lemma_encoded(t, min_len, values);
    lemma_unpadded(t, values);
}

/// The round trip: for every valid codec, every minimum length and every
/// list of at least one value, decoding the id of the list gives the list.
pub proof fn lemma_round_trip(t: Tables, min_len: nat, values: Seq<u64>)
    requires
        t.valid(),
        values.len() >= 1,
    ensures
        decoded(t, encoded(t, min_len, values), values.len()) == Ok::<Seq<u64>, DecodeErr>(
            values,
        ),
        checked(t, min_len, encoded(t, min_len, values), values.len()) == Ok::<
            Seq<u64>,
            DecodeErr,
        >(values),
{
    lemma_decode_encoded(t, min_len, values, values.len());
}

/// The round trip for the codecs that can be built: for every alphabet of
/// the crate, every salt, every minimum length and every list of at least
/// one value, decoding the id of the list gives the list.
pub proof fn lemma_round_trip_of<H: HashId>(salt: Seq<u8>, min_len: nat, values: Seq<u64>)
    requires
        values.len() >= 1,
    ensures
        tables_for(H::alphabet(), H::separators(), salt).valid(),
        decoded(
            tables_for(H::alphabet(), H::separators(), salt),
            encoded(tables_for(H::alphabet(), H::separators(), salt), min_len, values),
            values.len(),
        ) == Ok::<Seq<u64>, DecodeErr>(values),
{
    H::lemma_valid();
    lemma_tables_for_valid(H::alphabet(), H::separators(), salt);
    lemma_round_trip(tables_for(H::alphabet(), H::separators(), salt), min_len, values);
}

/// The round trip through text: the id of a list that is read as text and
/// written out as UTF-8 is the id again, byte for byte, and decodes to the
/// list.
pub proof fn lemma_text_round_trip(t: Tables, min_len: nat, values: Seq<u64>)
    requires
        t.valid(),
        values.len() >= 1,
    ensures
        encode_utf8(as_text(encoded(t, min_len, values))) == encoded(t, min_len, values),
        decoded(t, encode_utf8(as_text(encoded(t, min_len, values))), values.len()) == Ok::<
            Seq<u64>,
            DecodeErr,
        >(values),
{
    let id = encoded(t, min_len, values);
    lemma_id_prints(t, min_len, values);
    assert forall|k: int| 0 <= k < id.len() implies #[trigger] id[k] < 128 by {
        assert(is_symbol(id[k]));
    }
    lemma_ascii_text(id);
    lemma_round_trip(t, min_len, values);
}

/// No two lists share an id: where two lists of at least one value have the
/// same id, for one codec and one minimum length, they are the same list.
pub proof fn lemma_ids_differ(t: Tables, min_len: nat, first: Seq<u64>, second: Seq<u64>)
    requires
        t.valid(),
        first.len() >= 1,
        second.len() >= 1,
        encoded(t, min_len, first) == encoded(t, min_len, second),
    ensures
        first == second,
{
    lemma_decode_encoded(t, min_len, first, first.len());
    lemma_decode_encoded(t, min_len, second, first.len());
}

/// An id that is decoded for another number of values than it holds is
/// refused: never is a shorter or a longer list returned in its place.
pub proof fn lemma_arity_mismatch(t: Tables, min_len: nat, values: Seq<u64>, arity: nat)
    requires
        t.valid(),
        values.len() >= 1,
        arity != values.len(),
    ensures
        decoded(t, encoded(t, min_len, values), arity) is Err,
        checked(t, min_len, encoded(t, min_len, values), arity) is Err,
        arity > values.len() ==> decoded(t, encoded(t, min_len, values), arity) == Err::<
            Seq<u64>,
            DecodeErr,
        >(DecodeErr::TooFew),
        arity < values.len() ==> decoded(t, encoded(t, min_len, values), arity) == Err::<
            Seq<u64>,
            DecodeErr,
        >(DecodeErr::TooMany),
{
    lemma_decode_encoded(t, min_len, values, arity);
}

/// The id of at least one value has at least as many bytes as the minimum
/// length asks for, and never fewer than two.
pub proof fn lemma_min_length(t: Tables, min_len: nat, values: Seq<u64>)
    requires
        t.valid(),
        values.len() >= 1,
    ensures
        encoded(t, min_len, values).len() >= min_len,
        encoded(t, min_len, values).len() >= 2,
{
    lemma_encoded(t, min_len, values);
}

/// The empty list has the empty id, whatever the codec.
pub proof fn lemma_empty(t: Tables, min_len: nat)
    ensures
        encoded(t, min_len, Seq::<u64>::empty()) == Seq::<u8>::empty(),
{
}

/// The id is a function of the tables, the minimum length and the values:
/// where these are the same, so is every byte of the id.
pub proof fn lemma_deterministic(
    t1: Tables,
    t2: Tables,
    min_len1: nat,
    min_len2: nat,
    values1: Seq<u64>,
    values2: Seq<u64>,
)
    requires
        t1 == t2,
        min_len1 == min_len2,
        values1 == values2,
    ensures
        encoded(t1, min_len1, values1) == encoded(t2, min_len2, values2),
{
}

/// What the checked decoding accepts is genuine: the values that it returns
/// encode to the very input. So an id of some values that was changed in any
/// byte never decodes, checked, to those values.
pub proof fn lemma_checked_is_genuine(
    t: Tables,
    min_len: nat,
    input: Seq<u8>,
    arity: nat,
    values: Seq<u64>,
)
    ensures
        checked(t, min_len, input, arity) == Ok::<Seq<u64>, DecodeErr>(values) ==> encoded(
            t,
            min_len,
            values,
        ) == input,
        input != encoded(t, min_len, values) ==> checked(t, min_len, input, arity) != Ok::<
            Seq<u64>,
            DecodeErr,
        >(values),
{
}

} // verus!
