//! Compiling the proximity table: one transducer whose keys name a
//! translation, a verse and two tokens by their ids in the dictionary.

use crate::bytemap::ByteMap;
use crate::codec::{
    be_bytes, lemma_be_bytes_len, lemma_be_increasing, lemma_limit_4, lemma_verse_key_decoded,
    lemma_verse_key_len, proximity_bytes_key, verse_text_key, VerseKey,
};
use crate::index::BuildError;
use crate::lex::{
    ascending, lemma_lex_lt_asymmetric, lemma_lex_lt_by_head, lemma_lex_lt_by_tail,
    lemma_lex_lt_transitive, lemma_lex_trichotomy, lemma_position_unique, lex_lt, rank_in,
    strictly_increasing,
};
use crate::stats::{
    counts_wf, pairs_wf, proximities_wf, Proximities, ProximityModel, TokenCounts,
};
use crate::transducer::{
    accepted, finish_builder, insert_entry, map_bytes, may_follow, memory_builder,
};
use vstd::prelude::*;
use vstd::slice::slice_subrange;

verus! {

/// The width in bytes of a key of the proximity table.
pub const PROXIMITY_KEY_BYTES: usize = 17;

/// The largest number of tokens that two-byte ids can tell apart.
pub const MAX_TOKENS: usize = 65536;

/// The sequences one after the other.
pub open spec fn concat_all<A>(parts: Seq<Seq<A>>) -> Seq<A>
    decreases parts.len(),
{
    if parts.len() == 0 {
        Seq::empty()
    } else {
        concat_all(parts.drop_last()) + parts.last()
    }
}

/// The records of the tokens that follow one token in one verse: in
/// ascending order of the followers, the key is `head` and the follower's id,
/// the value is the distance.
pub open spec fn follower_entries(
    head: Seq<u8>,
    followers: Map<Seq<u8>, u64>,
    tokens: Set<Seq<u8>>,
) -> Seq<(Seq<u8>, u64)> {
    let keys = ascending(followers.dom());
    Seq::new(
        keys.len(),
        |k: int| (head + be_bytes(rank_in(tokens, keys[k]) as nat, 2), followers[keys[k]]),
    )
}

/// The records of one verse: for each token in ascending order, the records
/// of its followers under `place` and the token's id.
pub open spec fn pair_entries(
    place: Seq<u8>,
    pairs: Map<Seq<u8>, Map<Seq<u8>, u64>>,
    tokens: Set<Seq<u8>>,
) -> Seq<(Seq<u8>, u64)> {
    let keys = ascending(pairs.dom());
    concat_all(
        Seq::new(
            keys.len(),
            |j: int|
                follower_entries(
                    place + be_bytes(rank_in(tokens, keys[j]) as nat, 2),
                    pairs[keys[j]],
                    tokens,
                ),
        ),
    )
}

/// The records of the proximity table: for each place in ascending order,
/// the records of the verse there. The id of a token is its position among
/// `tokens` in ascending order.
pub open spec fn proximity_entries(distances: ProximityModel, tokens: Set<Seq<u8>>) -> Seq<
    (Seq<u8>, u64),
> {
    let keys = ascending(distances.dom());
    concat_all(Seq::new(keys.len(), |i: int| pair_entries(keys[i], distances[keys[i]], tokens)))
}

/// Every follower is among `tokens`.
pub open spec fn followers_known(followers: Map<Seq<u8>, u64>, tokens: Set<Seq<u8>>) -> bool {
    forall|b: Seq<u8>| followers.contains_key(b) ==> tokens.contains(b)
}

/// Every token of the verse and every follower is among `tokens`.
pub open spec fn pairs_known(pairs: Map<Seq<u8>, Map<Seq<u8>, u64>>, tokens: Set<Seq<u8>>) -> bool {
    forall|a: Seq<u8>| #[trigger]
        pairs.contains_key(a) ==> tokens.contains(a) && followers_known(pairs[a], tokens)
}

/// Every token of the proximities is among `tokens`.
pub open spec fn tokens_known(distances: ProximityModel, tokens: Set<Seq<u8>>) -> bool {
    forall|p: Seq<u8>| #[trigger]
        distances.contains_key(p) ==> pairs_known(distances[p], tokens)
}

/// The key accepted last, cut to the length of `prefix`, is below `prefix`:
/// any key that begins with `prefix` may follow.
pub open spec fn below_prefix(entries: Seq<(Seq<u8>, u64)>, prefix: Seq<u8>) -> bool {
    entries.len() > 0 ==> {
        let last = entries.last().0;
        &&& last.len() == PROXIMITY_KEY_BYTES
        &&& lex_lt(last.subrange(0, prefix.len() as int), prefix)
    }
}

/// The key accepted last, cut to the length of `prefix`, is `prefix` or
/// below it.
pub open spec fn within_prefix(entries: Seq<(Seq<u8>, u64)>, prefix: Seq<u8>) -> bool {
    entries.len() > 0 ==> {
        let last = entries.last().0;
        &&& last.len() == PROXIMITY_KEY_BYTES
        &&& (last.subrange(0, prefix.len() as int) == prefix || lex_lt(
            last.subrange(0, prefix.len() as int),
            prefix,
        ))
    }
}

proof fn lemma_may_follow(entries: Seq<(Seq<u8>, u64)>, prefix: Seq<u8>, rest: Seq<u8>)
    requires
        below_prefix(entries, prefix),
        prefix.len() <= PROXIMITY_KEY_BYTES,
    ensures
        may_follow(entries, prefix + rest),
{
    if entries.len() > 0 {
        let last = entries.last().0;
        let n = prefix.len() as int;
        let head = last.subrange(0, n);
        let tail = last.subrange(n, last.len() as int);
        assert(last =~= head + tail);
        lemma_lex_lt_by_head(head, prefix, tail, rest);
    }
}

proof fn lemma_below_extended(entries: Seq<(Seq<u8>, u64)>, prefix: Seq<u8>, more: Seq<u8>)
    requires
        below_prefix(entries, prefix),
        prefix.len() + more.len() <= PROXIMITY_KEY_BYTES,
    ensures
        below_prefix(entries, prefix + more),
{
    if entries.len() > 0 {
        let last = entries.last().0;
        let n = prefix.len() as int;
        let m = n + more.len();
        let head = last.subrange(0, n);
        let tail = last.subrange(n, m);
        assert(last.subrange(0, m) =~= head + tail);
        lemma_lex_lt_by_head(head, prefix, tail, more);
    }
}

proof fn lemma_below_next(entries: Seq<(Seq<u8>, u64)>, prefix: Seq<u8>, next: Seq<u8>)
    requires
        within_prefix(entries, prefix),
        lex_lt(prefix, next),
        prefix.len() == next.len(),
    ensures
        below_prefix(entries, next),
{
    if entries.len() > 0 {
        let head = entries.last().0.subrange(0, prefix.len() as int);
        if head != prefix {
            lemma_lex_lt_transitive(head, prefix, next);
        }
    }
}

proof fn lemma_within_shortened(entries: Seq<(Seq<u8>, u64)>, prefix: Seq<u8>, more: Seq<u8>)
    requires
        within_prefix(entries, prefix + more),
        prefix.len() + more.len() <= PROXIMITY_KEY_BYTES,
    ensures
        within_prefix(entries, prefix),
{
    if entries.len() > 0 {
        let last = entries.last().0;
        let n = prefix.len() as int;
        let m = n + more.len();
        let head = last.subrange(0, n);
        let tail = last.subrange(n, m);
        assert(last.subrange(0, m) =~= head + tail);
        if head + tail == prefix + more {
            assert(head =~= (head + tail).subrange(0, n));
            assert(prefix =~= (prefix + more).subrange(0, n));
        } else {
            lemma_lex_trichotomy(head, prefix);
            if lex_lt(prefix, head) {
                lemma_lex_lt_by_head(prefix, head, more, tail);
                lemma_lex_lt_asymmetric(prefix + more, head + tail);
            }
        }
    }
}

/// In an ascending sequence the smaller element stands first.
proof fn lemma_positions_ordered(s: Seq<Seq<u8>>, i: int, j: int)
    requires
        strictly_increasing(s),
        0 <= i < s.len(),
        0 <= j < s.len(),
        lex_lt(s[i], s[j]),
    ensures
        i < j,
{
    if j < i {
        lemma_lex_lt_asymmetric(s[j], s[i]);
    } else if i == j {
        lemma_lex_lt_asymmetric(s[i], s[j]);
    }
}

/// Inserts the records of the tokens that follow one token in one verse.
fn feed_followers(
    builder: &mut fst::MapBuilder<Vec<u8>>,
    tidx: u8,
    vkey: &VerseKey,
    first_id: u16,
    followers: &ByteMap<u64>,
    tokens: &TokenCounts,
) -> (r: Result<(), BuildError>)
    requires
        followers.wf(),
        tokens.wf(),
        tokens.keys().len() <= MAX_TOKENS,
        below_prefix(
            accepted(*old(builder)),
            verse_text_key(tidx, *vkey) + be_bytes(first_id as nat, 2),
        ),
    ensures
        match r {
            Ok(()) => {
                let head = verse_text_key(tidx, *vkey) + be_bytes(first_id as nat, 2);
                &&& followers_known(followers@, tokens@.dom())
                &&& accepted(*final(builder)) == accepted(*old(builder)) + follower_entries(
                    head,
                    followers@,
                    tokens@.dom(),
                )
                &&& within_prefix(accepted(*final(builder)), head)
            },
            Err(e) => e == BuildError::MissingToken && !followers_known(
                followers@,
                tokens@.dom(),
            ),
        },
{
    let ghost head = verse_text_key(tidx, *vkey) + be_bytes(first_id as nat, 2);
    let ghost before = accepted(*builder);
    let ghost entries = follower_entries(head, followers@, tokens@.dom());
    let ghost mut previous: int = 0;
    let n: usize = followers.len();
    let mut k: usize = 0;
    proof {
        followers.lemma_keys_listed();
        tokens.lemma_keys_listed();
        lemma_limit_4();
        lemma_verse_key_len(*vkey);
        lemma_be_bytes_len(first_id as nat, 2);
        assert(before + entries.take(0) =~= before);
    }
    while k < n
        invariant
            followers.wf(),
            tokens.wf(),
            tokens.keys().len() <= MAX_TOKENS,
            n == followers.keys().len(),
            k <= n,
            head == verse_text_key(tidx, *vkey) + be_bytes(first_id as nat, 2),
            head.len() == 15,
            followers.keys() == ascending(followers@.dom()),
            tokens.keys() == ascending(tokens@.dom()),
            entries == follower_entries(head, followers@, tokens@.dom()),
            entries.len() == n,
            accepted(*builder) == before + entries.take(k as int),
            k == 0 ==> below_prefix(accepted(*builder), head),
            k > 0 ==> {
                &&& 0 <= previous < tokens.keys().len()
                &&& tokens.keys()[previous] == followers.keys()[k - 1]
                &&& accepted(*builder).len() > 0
                &&& accepted(*builder).last().0 == head + be_bytes(previous as nat, 2)
            },
            forall|x: int| 0 <= x < k ==> tokens@.dom().contains(#[trigger] followers.keys()[x]),
        decreases n - k,
    {
        let follower = followers.key(k);
        let distance: u64 = *followers.value(k);
        proof {
            followers.lemma_entry(k as int);
        }
        let id: usize = match tokens.search(follower.as_slice()) {
            Ok(id) => id,
            Err(_) => {
                return Err(BuildError::MissingToken);
            },
        };
        let key = proximity_bytes_key(tidx, vkey, first_id, id as u16);
        proof {
            lemma_position_unique(tokens.keys(), id as int);
            lemma_be_bytes_len(id as nat, 2);
            assert(key@ == head + be_bytes(id as nat, 2));
            assert(entries[k as int] == (key@, distance));
            if k == 0 {
                lemma_may_follow(accepted(*builder), head, be_bytes(id as nat, 2));
            } else {
                lemma_positions_ordered(tokens.keys(), previous, id as int);
                lemma_limit_4();
                lemma_be_increasing(previous as nat, id as nat, 2);
                lemma_lex_lt_by_tail(head, be_bytes(previous as nat, 2), be_bytes(id as nat, 2));
            }
            assert(before + entries.take(k + 1) =~= (before + entries.take(k as int)).push(
                (key@, distance),
            ));
        }
        match insert_entry(builder, key.as_slice(), distance) {
            Ok(()) => {},
            Err(_) => {
                return Err(BuildError::KeyOrder);
            },
        }
        proof {
            previous = id as int;
        }
        k += 1;
    }
    proof {
        assert(entries.take(n as int) =~= entries);
        assert forall|b: Seq<u8>| followers@.contains_key(b) implies tokens@.dom().contains(b) by {
            let x = followers.keys().index_of(b);
            assert(followers.keys()[x] == b);
        }
        if n > 0 {
            let last = accepted(*builder).last().0;
            lemma_be_bytes_len(previous as nat, 2);
            assert(last.subrange(0, 15) =~= head);
        }
    }
    Ok(())
}

/// Inserts the records of one verse.
fn feed_pairs(
    builder: &mut fst::MapBuilder<Vec<u8>>,
    tidx: u8,
    vkey: &VerseKey,
    pairs: &ByteMap<ByteMap<u64>>,
    tokens: &TokenCounts,
) -> (r: Result<(), BuildError>)
    requires
        pairs_wf(pairs),
        tokens.wf(),
        tokens.keys().len() <= MAX_TOKENS,
        below_prefix(accepted(*old(builder)), verse_text_key(tidx, *vkey)),
    ensures
        match r {
            Ok(()) => {
                let place = verse_text_key(tidx, *vkey);
                &&& pairs_known(pairs@, tokens@.dom())
                &&& accepted(*final(builder)) == accepted(*old(builder)) + pair_entries(
                    place,
                    pairs@,
                    tokens@.dom(),
                )
                &&& within_prefix(accepted(*final(builder)), place)
            },
            Err(e) => e == BuildError::MissingToken && !pairs_known(pairs@, tokens@.dom()),
        },
{
    let ghost place = verse_text_key(tidx, *vkey);
    let ghost before = accepted(*builder);
    let ghost parts = Seq::new(
        pairs.keys().len(),
        |j: int|
            follower_entries(
                place + be_bytes(rank_in(tokens@.dom(), ascending(pairs@.dom())[j]) as nat, 2),
                pairs@[ascending(pairs@.dom())[j]],
                tokens@.dom(),
            ),
    );
    let ghost mut previous: int = 0;
    let n: usize = pairs.len();
    let mut j: usize = 0;
    proof {
        pairs.lemma_keys_listed();
        tokens.lemma_keys_listed();
        lemma_verse_key_len(*vkey);
        assert(parts.take(0) =~= Seq::<Seq<(Seq<u8>, u64)>>::empty());
        assert(before + concat_all(parts.take(0)) =~= before);
    }
    while j < n
        invariant
            pairs_wf(pairs),
            tokens.wf(),
            tokens.keys().len() <= MAX_TOKENS,
            n == pairs.keys().len(),
            j <= n,
            place == verse_text_key(tidx, *vkey),
            place.len() == 13,
            pairs.keys() == ascending(pairs@.dom()),
            tokens.keys() == ascending(tokens@.dom()),
            parts.len() == n,
            forall|x: int|
                0 <= x < n ==> #[trigger] parts[x] == follower_entries(
                    place + be_bytes(rank_in(tokens@.dom(), pairs.keys()[x]) as nat, 2),
                    pairs@[pairs.keys()[x]],
                    tokens@.dom(),
                ),
            accepted(*builder) == before + concat_all(parts.take(j as int)),
            j == 0 ==> below_prefix(accepted(*builder), place),
            j > 0 ==> {
                &&& 0 <= previous < tokens.keys().len()
                &&& tokens.keys()[previous] == pairs.keys()[j - 1]
                &&& within_prefix(accepted(*builder), place + be_bytes(previous as nat, 2))
            },
            forall|x: int|
                0 <= x < j ==> tokens@.dom().contains(#[trigger] pairs.keys()[x])
                    && followers_known(pairs@[pairs.keys()[x]], tokens@.dom()),
        decreases n - j,
    {
        let first = pairs.key(j);
        let followers = pairs.value(j);
        proof {
            pairs.lemma_entry(j as int);
        }
        let id: usize = match tokens.search(first.as_slice()) {
            Ok(id) => id,
            Err(_) => {
                return Err(BuildError::MissingToken);
            },
        };
        proof {
            lemma_position_unique(tokens.keys(), id as int);
            lemma_be_bytes_len(id as nat, 2);
            lemma_limit_4();
            if j == 0 {
                lemma_below_extended(accepted(*builder), place, be_bytes(id as nat, 2));
            } else {
                lemma_positions_ordered(tokens.keys(), previous, id as int);
                lemma_be_increasing(previous as nat, id as nat, 2);
                lemma_be_bytes_len(previous as nat, 2);
                lemma_lex_lt_by_tail(place, be_bytes(previous as nat, 2), be_bytes(id as nat, 2));
                lemma_below_next(
                    accepted(*builder),
                    place + be_bytes(previous as nat, 2),
                    place + be_bytes(id as nat, 2),
                );
            }
            assert(parts.take(j + 1).drop_last() =~= parts.take(j as int));
            assert(parts.take(j + 1).last() == parts[j as int]);
        }
        match feed_followers(builder, tidx, vkey, id as u16, followers, tokens) {
            Ok(()) => {},
            Err(e) => {
                return Err(e);
            },
        }
        proof {
            previous = id as int;
            assert(before + concat_all(parts.take(j + 1)) =~= (before + concat_all(
                parts.take(j as int),
            )) + parts[j as int]);
        }
        j += 1;
    }
    proof {
        assert(parts.take(n as int) =~= parts);
        assert(parts =~= Seq::new(
            ascending(pairs@.dom()).len(),
            |j: int|
                follower_entries(
                    place + be_bytes(rank_in(tokens@.dom(), ascending(pairs@.dom())[j]) as nat, 2),
                    pairs@[ascending(pairs@.dom())[j]],
                    tokens@.dom(),
                ),
        ));
        assert forall|a: Seq<u8>| #[trigger] pairs@.contains_key(a) implies tokens@.dom().contains(a)
            && followers_known(pairs@[a], tokens@.dom()) by {
            let x = pairs.keys().index_of(a);
            assert(pairs.keys()[x] == a);
        }
        if n > 0 {
            lemma_be_bytes_len(previous as nat, 2);
            lemma_within_shortened(accepted(*builder), place, be_bytes(previous as nat, 2));
        }
    }
    Ok(())
}

/// Builds the transducer of the proximity table. Its keys are made of the
/// places of `wip_proximities` and of the ids that the tokens have in the
/// dictionary built from `wip_token_counts`; they ascend, so the transducer
/// accepts them all. Fails if the dictionary has more tokens than two bytes
/// can number, or if a token of the proximities is not in it.
pub fn build_proximity_fst_bytes(
    wip_proximities: &Proximities,
    wip_token_counts: &TokenCounts,
) -> (r: Result<Vec<u8>, BuildError>)
    requires
        proximities_wf(wip_proximities),
        counts_wf(wip_token_counts),
    ensures
        match r {
            Ok(bytes) => {
                &&& wip_token_counts@.dom().len() <= MAX_TOKENS
                &&& tokens_known(wip_proximities@, wip_token_counts@.dom())
                &&& bytes@ == map_bytes(
                    proximity_entries(wip_proximities@, wip_token_counts@.dom()),
                )
            },
            Err(e) => if wip_token_counts@.dom().len() > MAX_TOKENS {
                e == BuildError::TokenIdOverflow
            } else {
                e == BuildError::MissingToken && !tokens_known(
                    wip_proximities@,
                    wip_token_counts@.dom(),
                )
            },
        },
{
    proof {
        wip_token_counts.lemma_keys_listed();
        wip_proximities.lemma_keys_listed();
    }
    if wip_token_counts.len() > MAX_TOKENS {
        return Err(BuildError::TokenIdOverflow);
    }
    let mut builder = memory_builder();
    let ghost tokens = wip_token_counts@.dom();
    let ghost parts = Seq::new(
        wip_proximities.keys().len(),
        |i: int|
            pair_entries(
                ascending(wip_proximities@.dom())[i],
                wip_proximities@[ascending(wip_proximities@.dom())[i]],
                tokens,
            ),
    );
    let n: usize = wip_proximities.len();
    let mut i: usize = 0;
    proof {
        assert(parts.take(0) =~= Seq::<Seq<(Seq<u8>, u64)>>::empty());
        assert(concat_all(parts.take(0)) =~= Seq::<(Seq<u8>, u64)>::empty());
    }
    while i < n
        invariant
            proximities_wf(wip_proximities),
            counts_wf(wip_token_counts),
            wip_token_counts.keys().len() <= MAX_TOKENS,
            wip_token_counts@.dom().len() == wip_token_counts.keys().len(),
            tokens == wip_token_counts@.dom(),
            n == wip_proximities.keys().len(),
            i <= n,
            wip_proximities.keys() == ascending(wip_proximities@.dom()),
            parts.len() == n,
            forall|x: int|
                0 <= x < n ==> #[trigger] parts[x] == pair_entries(
                    wip_proximities.keys()[x],
                    wip_proximities@[wip_proximities.keys()[x]],
                    tokens,
                ),
            accepted(builder) == concat_all(parts.take(i as int)),
            i == 0 ==> accepted(builder).len() == 0,
            i > 0 ==> within_prefix(accepted(builder), wip_proximities.keys()[i - 1]),
            forall|x: int|
                0 <= x < i ==> pairs_known(
                    wip_proximities@[#[trigger] wip_proximities.keys()[x]],
                    tokens,
                ),
        decreases n - i,
    {
        let place = wip_proximities.key(i);
        let pairs = wip_proximities.value(i);
        proof {
            wip_proximities.lemma_entry(i as int);
        }
        let tidx: u8 = place[0];
        let vkey = match VerseKey::from_be_bytes(slice_subrange(place.as_slice(), 1, 13)) {
            Some(vkey) => vkey,
            None => {
                return Err(BuildError::KeyOrder);
            },
        };
        proof {
            lemma_verse_key_decoded(place@.subrange(1, 13));
            assert(place@ =~= verse_text_key(tidx, vkey));
            if i > 0 {
                lemma_below_next(accepted(builder), wip_proximities.keys()[i - 1], place@);
            }
            assert(parts.take(i + 1).drop_last() =~= parts.take(i as int));
            assert(parts.take(i + 1).last() == parts[i as int]);
        }
        match feed_pairs(&mut builder, tidx, &vkey, pairs, wip_token_counts) {
            Ok(()) => {},
            Err(e) => {
                return Err(e);
            },
        }
        i += 1;
    }
    proof {
        assert(parts.take(n as int) =~= parts);
        assert(parts =~= Seq::new(
            ascending(wip_proximities@.dom()).len(),
            |i: int|
                pair_entries(
                    ascending(wip_proximities@.dom())[i],
                    wip_proximities@[ascending(wip_proximities@.dom())[i]],
                    tokens,
                ),
        ));
        assert forall|p: Seq<u8>| #[trigger] wip_proximities@.contains_key(p) implies pairs_known(
            wip_proximities@[p],
            tokens,
        ) by {
            let x = wip_proximities.keys().index_of(p);
            assert(wip_proximities.keys()[x] == p);
        }
    }
    match finish_builder(builder) {
        Ok(bytes) => Ok(bytes),
        Err(_) => Err(BuildError::KeyOrder),
    }
}

} // verus!
