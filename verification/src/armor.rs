//! Donning and doffing armor: the encoder turns a byte buffer into word-salad
//! messages bounded by a character limit, and the decoder reassembles the
//! byte buffer from the messages in any order.

use vstd::prelude::*;
use vstd::multiset::Multiset;
use crate::codec::{bytes_to_words, words_to_bytes, padded, encode_words, decode_bytes};
use crate::table::{
    ArmorError, DictMappings, WORD_RANGE_LEN, catalog_ok, catalog_distinct, choose_index,
    lemma_marker_not_word, lemma_reverse_lookup_correct, lemma_rev_none, perm_seq, rev_spec,
    table_wf,
};
use crate::text::{
    all_space_free, join_spec, join_words, lemma_join_push, lemma_split_join, space_free,
    split_spaces, split_spec,
};

verus! {

// ---------------------------------------------------------------------------
// The shape of an encoded transmission
// ---------------------------------------------------------------------------

/// The catalog words at the given catalog indices.
pub open spec fn cat_words(cat: Seq<Seq<char>>, idxs: Seq<int>) -> Seq<Seq<char>> {
    idxs.map_values(|i: int| cat[i])
}

/// The catalog words of an index range of the table.
pub open spec fn range_words(cat: Seq<Seq<char>>, range: Seq<u32>) -> Seq<Seq<char>> {
    range.map_values(|x: u32| cat[x as int])
}

/// The catalog indices of the unsplit word sequence: one begin marker, the
/// coded data words, one end marker.
pub open spec fn full_index_seq(data: Seq<u8>, t: DictMappings, b: int, e: int) -> Seq<int> {
    seq![t.begin@[b] as int] + bytes_to_words(data).map_values(|w: u16| t.words@[w as int] as int)
        + seq![t.end@[e] as int]
}

/// The messages are one way of armoring the data: for some choice of begin,
/// end and fragment markers and of split boundaries, the head message joins
/// the first segment of the full word sequence, and every continuation
/// message m joins a fragment marker, the coded word for m, and its segment.
pub open spec fn is_armor_output_with(
    msgs: Seq<Seq<char>>,
    data: Seq<u8>,
    t: DictMappings,
    cat: Seq<Seq<char>>,
    b: int,
    e: int,
    splits: Seq<int>,
    frags: Seq<int>,
) -> bool {
    let fidx = full_index_seq(data, t, b, e);
    let full = cat_words(cat, fidx);
    &&& 0 <= b < t.begin@.len()
    &&& 0 <= e < t.end@.len()
    &&& 1 <= msgs.len() <= WORD_RANGE_LEN
    &&& splits.len() == msgs.len() + 1
    &&& splits[0] == 0
    &&& splits[msgs.len() as int] == fidx.len()
    &&& (forall|m: int| 0 <= m < msgs.len() ==> #[trigger] splits[m] < splits[m + 1])
    &&& frags.len() == msgs.len()
    &&& (forall|m: int| 1 <= m < msgs.len() ==> 0 <= #[trigger] frags[m] < t.fragment@.len())
    &&& msgs[0] == join_spec(full.subrange(splits[0], splits[1]))
    &&& (forall|m: int|
        1 <= m < msgs.len() ==> #[trigger] msgs[m] == join_spec(
            seq![cat[t.fragment@[frags[m]] as int], cat[t.words@[m] as int]] + full.subrange(
                splits[m],
                splits[m + 1],
            ),
        ))
}

/// The messages are one possible encoding of the data under the table.
pub open spec fn is_armor_output(
    msgs: Seq<Seq<char>>,
    data: Seq<u8>,
    t: DictMappings,
    cat: Seq<Seq<char>>,
) -> bool {
    exists|b: int, e: int, splits: Seq<int>, frags: Seq<int>|
        is_armor_output_with(msgs, data, t, cat, b, e, splits, frags)
}

// ---------------------------------------------------------------------------
// The character-limit model of the encoder
// ---------------------------------------------------------------------------

/// The longest word of the sequence; zero when it is empty.
pub open spec fn max_word_len(ws: Seq<Seq<char>>) -> int
    decreases ws.len(),
{
    if ws.len() == 0 {
        0
    } else {
        let m = max_word_len(ws.drop_first());
        if ws[0].len() > m {
            ws[0].len() as int
        } else {
            m
        }
    }
}

/// What the encoder reserves in every message for the continuation prefix: the
/// longest fragment marker, the longest sequence-number word, and the two
/// separating spaces.
pub open spec fn don_reserve(t: DictMappings, cat: Seq<Seq<char>>) -> int {
    max_word_len(range_words(cat, t.fragment@)) + 2 + max_word_len(range_words(cat, t.words@))
}

/// The coded catalog words of the data.
pub open spec fn coded_words(data: Seq<u8>, t: DictMappings, cat: Seq<Seq<char>>) -> Seq<Seq<char>> {
    bytes_to_words(data).map_values(|w: u16| cat[t.words@[w as int] as int])
}

/// The character limit accommodates every word that can appear in a message
/// (any begin marker, any end marker, any coded data word) together with the
/// continuation-prefix reserve.
pub open spec fn don_fits(data: Seq<u8>, t: DictMappings, cat: Seq<Seq<char>>, limit: int) -> bool {
    &&& max_word_len(range_words(cat, t.begin@)) + don_reserve(t, cat) <= limit
    &&& max_word_len(range_words(cat, t.end@)) + don_reserve(t, cat) <= limit
    &&& max_word_len(coded_words(data, t, cat)) + don_reserve(t, cat) <= limit
}

// ---------------------------------------------------------------------------
// The decoder, as a deterministic function of its inputs
// ---------------------------------------------------------------------------

/// The position of the first catalog entry equal to the token.
pub open spec fn token_index(cat: Seq<Seq<char>>, tok: Seq<char>) -> Option<int>
    decreases cat.len(),
{
    if cat.len() == 0 {
        None
    } else if cat[0] == tok {
        Some(0int)
    } else {
        match token_index(cat.drop_first(), tok) {
            None => None,
            Some(i) => Some(i + 1),
        }
    }
}

/// The catalog indices of a message's tokens; unrecognized tokens are
/// silently dropped.
pub open spec fn msg_index_seq(cat: Seq<Seq<char>>, toks: Seq<Seq<char>>) -> Seq<int>
    decreases toks.len(),
{
    if toks.len() == 0 {
        Seq::empty()
    } else {
        let rest = msg_index_seq(cat, toks.drop_first());
        match token_index(cat, toks[0]) {
            Some(i) => seq![i] + rest,
            None => rest,
        }
    }
}

/// The index is one of the range's entries.
pub open spec fn in_range(range: Seq<u32>, x: int) -> bool {
    exists|j: int| 0 <= j < range.len() && range[j] == x
}

/// Classify one message's index list: a head message starts with a begin
/// marker and has sequence number zero; a continuation message starts with a
/// fragment marker followed by its coded sequence number. Anything else is
/// malformed.
pub open spec fn classify_spec(t: DictMappings, idxs: Seq<int>) -> Option<(u16, Seq<int>)> {
    if idxs.len() == 0 {
        None
    } else if in_range(t.begin@, idxs[0]) {
        Some((0u16, idxs.drop_first()))
    } else if !in_range(t.fragment@, idxs[0]) {
        None
    } else if idxs.len() < 2 {
        None
    } else {
        match rev_spec(t.words@, idxs[1]) {
            None => None,
            Some(sq) => Some((sq, idxs.skip(2))),
        }
    }
}

/// The sequence number and payload indices of one message.
pub open spec fn message_pair(t: DictMappings, cat: Seq<Seq<char>>, msg: Seq<char>) -> Option<
    (u16, Seq<int>),
> {
    classify_spec(t, msg_index_seq(cat, split_spec(msg)))
}

/// The pairs of all messages; None as soon as one message is malformed.
pub open spec fn all_pairs(t: DictMappings, cat: Seq<Seq<char>>, msgs: Seq<Seq<char>>) -> Option<
    Seq<(u16, Seq<int>)>,
>
    decreases msgs.len(),
{
    if msgs.len() == 0 {
        Some(Seq::empty())
    } else {
        match (message_pair(t, cat, msgs[0]), all_pairs(t, cat, msgs.drop_first())) {
            (Some(p), Some(rest)) => Some(seq![p] + rest),
            _ => None,
        }
    }
}

/// Stable insertion: the pair goes after every pair with a key at most its
/// own.
pub open spec fn insert_sorted(p: (u16, Seq<int>), s: Seq<(u16, Seq<int>)>) -> Seq<(u16, Seq<int>)>
    decreases s.len(),
{
    if s.len() == 0 {
        seq![p]
    } else if s[0].0 <= p.0 {
        seq![s[0]] + insert_sorted(p, s.drop_first())
    } else {
        seq![p] + s
    }
}

/// Insertion sort by sequence number, stable for equal keys.
pub open spec fn sort_acc(acc: Seq<(u16, Seq<int>)>, s: Seq<(u16, Seq<int>)>) -> Seq<
    (u16, Seq<int>),
>
    decreases s.len(),
{
    if s.len() == 0 {
        acc
    } else {
        sort_acc(insert_sorted(s[0], acc), s.drop_first())
    }
}

/// The pairs sorted ascending by sequence number.
pub open spec fn sort_pairs(s: Seq<(u16, Seq<int>)>) -> Seq<(u16, Seq<int>)> {
    sort_acc(Seq::empty(), s)
}

/// The 16-bit words recovered from one payload: indices with no words-range
/// match are dropped.
pub open spec fn payload_words(t: DictMappings, idxs: Seq<int>) -> Seq<u16>
    decreases idxs.len(),
{
    if idxs.len() == 0 {
        Seq::empty()
    } else {
        let rest = payload_words(t, idxs.drop_first());
        match rev_spec(t.words@, idxs[0]) {
            Some(w) => seq![w] + rest,
            None => rest,
        }
    }
}

/// The 16-bit words of all payloads, in pair order.
pub open spec fn pairs_words(t: DictMappings, ps: Seq<(u16, Seq<int>)>) -> Seq<u16>
    decreases ps.len(),
{
    if ps.len() == 0 {
        Seq::empty()
    } else {
        payload_words(t, ps[0].1) + pairs_words(t, ps.drop_first())
    }
}

/// Everything the decoder returns, as a function of the messages, the table
/// and the catalog.
pub open spec fn doff_spec(msgs: Seq<Seq<char>>, t: DictMappings, cat: Seq<Seq<char>>) -> Result<
    Seq<u8>,
    ArmorError,
> {
    match all_pairs(t, cat, msgs) {
        None => Err(ArmorError::MalformedMessage),
        Some(ps) => Ok(words_to_bytes(pairs_words(t, sort_pairs(ps)))),
    }
}

// ---------------------------------------------------------------------------
// Decoder lemmas
// ---------------------------------------------------------------------------

proof fn lemma_token_found(cat: Seq<Seq<char>>, tok: Seq<char>, p: int)
    requires
        0 <= p < cat.len(),
        cat[p] == tok,
        forall|j: int| 0 <= j < p ==> (#[trigger] cat[j]) != tok,
    ensures
        token_index(cat, tok) == Some(p),
    decreases p,
{
    if p > 0 {
        assert(forall|j: int|
            0 <= j < cat.drop_first().len() ==> cat.drop_first()[j] == cat[j + 1]);
        lemma_token_found(cat.drop_first(), tok, p - 1);
    }
}

proof fn lemma_token_none(cat: Seq<Seq<char>>, tok: Seq<char>)
    requires
        forall|j: int| 0 <= j < cat.len() ==> (#[trigger] cat[j]) != tok,
    ensures
        token_index(cat, tok) == None::<int>,
    decreases cat.len(),
{
    if cat.len() > 0 {
        assert(forall|j: int|
            0 <= j < cat.drop_first().len() ==> cat.drop_first()[j] == cat[j + 1]);
        lemma_token_none(cat.drop_first(), tok);
    }
}

proof fn lemma_msg_index_push(cat: Seq<Seq<char>>, toks: Seq<Seq<char>>, tok: Seq<char>)
    ensures
        msg_index_seq(cat, toks.push(tok)) == msg_index_seq(cat, toks) + (match token_index(
            cat,
            tok,
        ) {
            Some(i) => seq![i],
            None => Seq::<int>::empty(),
        }),
    decreases toks.len(),
{
    let tail = match token_index(cat, tok) {
        Some(i) => seq![i],
        None => Seq::<int>::empty(),
    };
    if toks.len() == 0 {
        assert(toks.push(tok).drop_first() =~= Seq::<Seq<char>>::empty());
        assert(msg_index_seq(cat, Seq::<Seq<char>>::empty()) == Seq::<int>::empty());
        assert(msg_index_seq(cat, toks.push(tok)) =~= msg_index_seq(cat, toks) + tail);
    } else {
        assert(toks.push(tok).drop_first() =~= toks.drop_first().push(tok));
        lemma_msg_index_push(cat, toks.drop_first(), tok);
        assert(msg_index_seq(cat, toks.push(tok)) =~= msg_index_seq(cat, toks) + tail);
    }
}


proof fn lemma_all_pairs_push(
    t: DictMappings,
    cat: Seq<Seq<char>>,
    msgs: Seq<Seq<char>>,
    msg: Seq<char>,
)
    ensures
        all_pairs(t, cat, msgs.push(msg)) == (match (all_pairs(t, cat, msgs), message_pair(
            t,
            cat,
            msg,
        )) {
            (Some(ps), Some(p)) => Some(ps.push(p)),
            _ => None::<Seq<(u16, Seq<int>)>>,
        }),
    decreases msgs.len(),
{
    if msgs.len() == 0 {
        assert(msgs.push(msg).drop_first() =~= Seq::<Seq<char>>::empty());
        assert(all_pairs(t, cat, Seq::<Seq<char>>::empty()) == Some(Seq::<(u16, Seq<int>)>::empty()));
        if message_pair(t, cat, msg) is Some {
            let p = message_pair(t, cat, msg).unwrap();
            assert(seq![p] + Seq::<(u16, Seq<int>)>::empty() =~= Seq::<(
                u16,
                Seq<int>,
            )>::empty().push(p));
        }
    } else {
        assert(msgs.push(msg).drop_first() =~= msgs.drop_first().push(msg));
        lemma_all_pairs_push(t, cat, msgs.drop_first(), msg);
        if all_pairs(t, cat, msgs) is Some && message_pair(t, cat, msg) is Some {
            let p = message_pair(t, cat, msg).unwrap();
            let p0 = message_pair(t, cat, msgs[0]).unwrap();
            let rest = all_pairs(t, cat, msgs.drop_first()).unwrap();
            assert(seq![p0] + rest.push(p) =~= (seq![p0] + rest).push(p));
        }
    }
}

proof fn lemma_all_pairs_none(t: DictMappings, cat: Seq<Seq<char>>, msgs: Seq<Seq<char>>, k: int)
    requires
        0 <= k < msgs.len(),
        message_pair(t, cat, msgs[k]) is None,
    ensures
        all_pairs(t, cat, msgs) is None,
    decreases msgs.len(),
{
    if k > 0 {
        assert(msgs.drop_first()[k - 1] == msgs[k]);
        lemma_all_pairs_none(t, cat, msgs.drop_first(), k - 1);
    }
}

proof fn lemma_payload_words_push(t: DictMappings, idxs: Seq<int>, x: int)
    ensures
        payload_words(t, idxs.push(x)) == payload_words(t, idxs) + (match rev_spec(t.words@, x) {
            Some(w) => seq![w],
            None => Seq::<u16>::empty(),
        }),
    decreases idxs.len(),
{
    let tail = match rev_spec(t.words@, x) {
        Some(w) => seq![w],
        None => Seq::<u16>::empty(),
    };
    if idxs.len() == 0 {
        assert(idxs.push(x).drop_first() =~= Seq::<int>::empty());
        assert(payload_words(t, Seq::<int>::empty()) == Seq::<u16>::empty());
        assert(payload_words(t, idxs.push(x)) =~= payload_words(t, idxs) + tail);
    } else {
        assert(idxs.push(x).drop_first() =~= idxs.drop_first().push(x));
        lemma_payload_words_push(t, idxs.drop_first(), x);
        assert(payload_words(t, idxs.push(x)) =~= payload_words(t, idxs) + tail);
    }
}

proof fn lemma_pairs_words_push(t: DictMappings, ps: Seq<(u16, Seq<int>)>, p: (u16, Seq<int>))
    ensures
        pairs_words(t, ps.push(p)) == pairs_words(t, ps) + payload_words(t, p.1),
    decreases ps.len(),
{
    if ps.len() == 0 {
        assert(ps.push(p).drop_first() =~= Seq::<(u16, Seq<int>)>::empty());
        assert(pairs_words(t, Seq::<(u16, Seq<int>)>::empty()) == Seq::<u16>::empty());
        assert(pairs_words(t, ps.push(p)) =~= pairs_words(t, ps) + payload_words(t, p.1));
    } else {
        assert(ps.push(p).drop_first() =~= ps.drop_first().push(p));
        lemma_pairs_words_push(t, ps.drop_first(), p);
        assert(pairs_words(t, ps.push(p)) =~= pairs_words(t, ps) + payload_words(t, p.1));
    }
}

proof fn lemma_insert_sorted_at(s: Seq<(u16, Seq<int>)>, p: (u16, Seq<int>), j: int)
    requires
        0 <= j <= s.len(),
        forall|k: int| 0 <= k < j ==> (#[trigger] s[k]).0 <= p.0,
        j < s.len() ==> s[j].0 > p.0,
    ensures
        insert_sorted(p, s) == s.insert(j, p),
    decreases j,
{
    if j == 0 {
        if s.len() == 0 {
            assert(insert_sorted(p, s) =~= s.insert(0, p));
        } else {
            assert(seq![p] + s =~= s.insert(0, p));
        }
    } else {
        assert(s[0].0 <= p.0);
        assert(forall|k: int|
            0 <= k < s.drop_first().len() ==> s.drop_first()[k] == s[k + 1]);
        lemma_insert_sorted_at(s.drop_first(), p, j - 1);
        assert(seq![s[0]] + s.drop_first().insert(j - 1, p) =~= s.insert(j, p));
    }
}

// ---------------------------------------------------------------------------
// Decoder helpers
// ---------------------------------------------------------------------------

/// The position of the first catalog entry equal to the token, if any.
fn find_token(catalog: &Vec<String>, tok: &String) -> (r: Option<usize>)
    ensures
        r matches Some(i) ==> i < catalog@.len() && token_index(catalog.deep_view(), tok@)
            == Some(i as int),
        r is None ==> token_index(catalog.deep_view(), tok@) == None::<int>,
{
    let ghost cat = catalog.deep_view();
    let mut j: usize = 0;
    while j < catalog.len()
        invariant
            j <= catalog@.len(),
            cat == catalog.deep_view(),
            cat.len() == catalog@.len(),
            forall|k: int| 0 <= k < j ==> (#[trigger] cat[k]) != tok@,
        decreases catalog@.len() - j,
    {
        if *tok == catalog[j] {
            proof {
                lemma_token_found(cat, tok@, j as int);
            }
            return Some(j);
        }
        j = j + 1;
    }
    proof {
        lemma_token_none(cat, tok@);
    }
    None
}

/// Map each token to its catalog index, dropping unrecognized tokens.
fn tokens_to_indices(toks: &Vec<String>, catalog: &Vec<String>) -> (idxs: Vec<usize>)
    ensures
        idxs@.map_values(|x: usize| x as int) == msg_index_seq(
            catalog.deep_view(),
            toks.deep_view(),
        ),
        forall|k: int| 0 <= k < idxs@.len() ==> (#[trigger] idxs@[k]) < catalog@.len(),
{
    let ghost cat = catalog.deep_view();
    let mut idxs: Vec<usize> = Vec::new();
    let mut k: usize = 0;
    proof {
        assert(toks.deep_view().take(0) =~= Seq::<Seq<char>>::empty());
        assert(idxs@.map_values(|x: usize| x as int) =~= Seq::<int>::empty());
    }
    while k < toks.len()
        invariant
            k <= toks@.len(),
            cat == catalog.deep_view(),
            cat.len() == catalog@.len(),
            toks.deep_view().len() == toks@.len(),
            idxs@.map_values(|x: usize| x as int) == msg_index_seq(
                cat,
                toks.deep_view().take(k as int),
            ),
            forall|i: int| 0 <= i < idxs@.len() ==> (#[trigger] idxs@[i]) < catalog@.len(),
        decreases toks@.len() - k,
    {
        let ghost prefix = toks.deep_view().take(k as int);
        proof {
            assert(toks.deep_view().take(k as int + 1) =~= prefix.push(toks.deep_view()[k as int]));
            lemma_msg_index_push(cat, prefix, toks.deep_view()[k as int]);
        }
        match find_token(catalog, &toks[k]) {
            Some(i) => {
                idxs.push(i);
                proof {
                    assert(idxs@.map_values(|x: usize| x as int) =~= msg_index_seq(cat, prefix)
                        + seq![i as int]);
                }
            },
            None => {
                proof {
                    assert(msg_index_seq(cat, prefix) + Seq::<int>::empty() =~= msg_index_seq(
                        cat,
                        prefix,
                    ));
                }
            },
        }
        k = k + 1;
    }
    proof {
        assert(toks.deep_view().take(toks@.len() as int) =~= toks.deep_view());
    }
    idxs
}

/// Whether the index is one of the range's entries.
fn range_contains(range: &Vec<u32>, x: usize) -> (r: bool)
    ensures
        r == in_range(range@, x as int),
{
    let mut j: usize = 0;
    while j < range.len()
        invariant
            j <= range@.len(),
            forall|k: int| 0 <= k < j ==> (#[trigger] range@[k]) != x as int,
        decreases range@.len() - j,
    {
        if range[j] as usize == x {
            assert(range@[j as int] == x as int);
            return true;
        }
        j = j + 1;
    }
    false
}

/// Copy the indices from the given position on.
fn copy_tail(idxs: &Vec<usize>, from: usize) -> (out: Vec<usize>)
    requires
        from <= idxs@.len(),
    ensures
        out@ == idxs@.subrange(from as int, idxs@.len() as int),
{
    let mut out: Vec<usize> = Vec::new();
    let mut k: usize = from;
    while k < idxs.len()
        invariant
            from <= k <= idxs@.len(),
            out@ == idxs@.subrange(from as int, k as int),
        decreases idxs@.len() - k,
    {
        out.push(idxs[k]);
        proof {
            assert(out@ =~= idxs@.subrange(from as int, k as int + 1));
        }
        k = k + 1;
    }
    out
}

/// The sequence-number/payload view of one decoded pair.
pub open spec fn pair_view(p: (u16, Vec<usize>)) -> (u16, Seq<int>) {
    (p.0, p.1@.map_values(|x: usize| x as int))
}

/// The view of a run of decoded pairs.
pub open spec fn pairs_view(s: Seq<(u16, Vec<usize>)>) -> Seq<(u16, Seq<int>)> {
    s.map_values(|p: (u16, Vec<usize>)| pair_view(p))
}

/// Insert the pair after every pair with a key at most its own.
fn insert_pair(sorted: &mut Vec<(u16, Vec<usize>)>, p: (u16, Vec<usize>))
    ensures
        pairs_view(final(sorted)@) == insert_sorted(pair_view(p), pairs_view(old(sorted)@)),
{
    let mut j: usize = 0;
    while j < sorted.len() && sorted[j].0 <= p.0
        invariant
            j <= sorted@.len(),
            sorted@ == old(sorted)@,
            forall|k: int| 0 <= k < j ==> (#[trigger] sorted@[k]).0 <= p.0,
        decreases sorted@.len() - j,
    {
        j = j + 1;
    }
    proof {
        let sv = pairs_view(sorted@);
        assert(forall|k: int| 0 <= k < j ==> (#[trigger] sv[k]).0 <= pair_view(p).0);
        if (j as int) < sorted@.len() {
            assert(sv[j as int].0 > pair_view(p).0);
        }
        lemma_insert_sorted_at(sv, pair_view(p), j as int);
    }
    let ghost old_sv = pairs_view(sorted@);
    sorted.insert(j, p);
    proof {
        assert(pairs_view(sorted@) =~= old_sv.insert(j as int, pair_view(p)));
    }
}

/// Doff armor: recover the byte stream from a collection of messages, in any
/// order.
pub fn doff(messages: &Vec<String>, dict: &DictMappings, catalog: &Vec<String>) -> (r: Result<
    Vec<u8>,
    ArmorError,
>)
    requires
        dict.words@.len() <= WORD_RANGE_LEN,
    ensures
        r matches Ok(bs) ==> doff_spec(messages.deep_view(), *dict, catalog.deep_view())
            == Ok::<Seq<u8>, ArmorError>(bs@),
        r matches Err(er) ==> doff_spec(messages.deep_view(), *dict, catalog.deep_view())
            == Err::<Seq<u8>, ArmorError>(er),
{
    let ghost cat = catalog.deep_view();
    let ghost mdv = messages.deep_view();
    let mut pairs: Vec<(u16, Vec<usize>)> = Vec::new();
    let mut k: usize = 0;
    proof {
        assert(mdv.take(0) =~= Seq::<Seq<char>>::empty());
        assert(pairs_view(pairs@) =~= Seq::<(u16, Seq<int>)>::empty());
    }
    while k < messages.len()
        invariant
            k <= messages@.len(),
            cat == catalog.deep_view(),
            mdv == messages.deep_view(),
            mdv.len() == messages@.len(),
            dict.words@.len() <= WORD_RANGE_LEN,
            cat.len() == catalog@.len(),
            all_pairs(*dict, cat, mdv.take(k as int)) == Some(pairs_view(pairs@)),
        decreases messages@.len() - k,
    {
        let ghost prefix = mdv.take(k as int);
        proof {
            assert(mdv.take(k as int + 1) =~= prefix.push(mdv[k as int]));
            lemma_all_pairs_push(*dict, cat, prefix, mdv[k as int]);
        }
        let toks = split_spaces(messages[k].as_str());
        let idxs = tokens_to_indices(&toks, catalog);
        let ghost sidx = msg_index_seq(cat, split_spec(mdv[k as int]));
        proof {
            assert(idxs@.map_values(|x: usize| x as int) == sidx);
            assert(idxs@.len() == sidx.len());
            assert(forall|i: int|
                0 <= i < idxs@.len() ==> sidx[i] == (#[trigger] idxs@[i]) as int);
        }
        if idxs.len() == 0 {
            proof {
                assert(sidx.len() == 0);
                assert(message_pair(*dict, cat, mdv[k as int]) is None);
                lemma_all_pairs_none(*dict, cat, mdv, k as int);
            }
            return Err(ArmorError::MalformedMessage);
        }
        let first = idxs[0];
        if range_contains(&dict.begin, first) {
            let payload = copy_tail(&idxs, 1);
            let ghost op = pairs_view(pairs@);
            pairs.push((0u16, payload));
            proof {
                assert(payload@.map_values(|x: usize| x as int) =~= sidx.drop_first());
                assert(pairs_view(pairs@) =~= op.push((0u16, sidx.drop_first())));
                assert(classify_spec(*dict, sidx) == Some((0u16, sidx.drop_first())));
            }
        } else if range_contains(&dict.fragment, first) {
            if idxs.len() < 2 {
                proof {
                    assert(classify_spec(*dict, sidx) == None::<(u16, Seq<int>)>);
                    lemma_all_pairs_none(*dict, cat, mdv, k as int);
                }
                return Err(ArmorError::MalformedMessage);
            }
            if idxs[1] > u32::MAX as usize {
                proof {
                    assert(sidx[1] > u32::MAX);
                    lemma_rev_none(dict.words@, sidx[1]);
                    assert(classify_spec(*dict, sidx) == None::<(u16, Seq<int>)>);
                    lemma_all_pairs_none(*dict, cat, mdv, k as int);
                }
                return Err(ArmorError::MalformedMessage);
            }
            match dict.reverse_lookup(idxs[1] as u32) {
                Some(sq) => {
                    let payload = copy_tail(&idxs, 2);
                    let ghost op = pairs_view(pairs@);
                    pairs.push((sq, payload));
                    proof {
                        assert(idxs@[1] as int == sidx[1]);
                        assert(payload@.map_values(|x: usize| x as int) =~= sidx.skip(2));
                        assert(pairs_view(pairs@) =~= op.push((sq, sidx.skip(2))));
                        assert(classify_spec(*dict, sidx) == Some((sq, sidx.skip(2))));
                    }
                },
                None => {
                    proof {
                        assert(idxs@[1] as int == sidx[1]);
                        assert(classify_spec(*dict, sidx) == None::<(u16, Seq<int>)>);
                        lemma_all_pairs_none(*dict, cat, mdv, k as int);
                    }
                    return Err(ArmorError::MalformedMessage);
                },
            }
        } else {
            proof {
                assert(classify_spec(*dict, sidx) == None::<(u16, Seq<int>)>);
                lemma_all_pairs_none(*dict, cat, mdv, k as int);
            }
            return Err(ArmorError::MalformedMessage);
        }
        k = k + 1;
    }
    proof {
        assert(mdv.take(mdv.len() as int) =~= mdv);
    }
    let ghost all = pairs_view(pairs@);
    // Sort the pairs ascending by sequence number.
    let mut sorted: Vec<(u16, Vec<usize>)> = Vec::new();
    proof {
        assert(pairs_view(sorted@) =~= Seq::<(u16, Seq<int>)>::empty());
    }
    while pairs.len() > 0
        invariant
            sort_acc(pairs_view(sorted@), pairs_view(pairs@)) == sort_pairs(all),
        decreases pairs@.len(),
    {
        let ghost pv = pairs_view(pairs@);
        let p = pairs.remove(0);
        proof {
            assert(pairs_view(pairs@) =~= pv.drop_first());
            assert(pair_view(p) == pv[0]);
        }
        insert_pair(&mut sorted, p);
    }
    proof {
        assert(pairs_view(pairs@) =~= Seq::<(u16, Seq<int>)>::empty());
        assert(sort_acc(pairs_view(sorted@), Seq::empty()) == pairs_view(sorted@));
    }
    // Recover the 16-bit words of the payloads in sorted order.
    let ghost sv = pairs_view(sorted@);
    let mut out_words: Vec<u16> = Vec::new();
    let mut m: usize = 0;
    proof {
        assert(sv.take(0) =~= Seq::<(u16, Seq<int>)>::empty());
        assert(out_words@ =~= pairs_words(*dict, sv.take(0)));
    }
    while m < sorted.len()
        invariant
            m <= sorted@.len(),
            sv == pairs_view(sorted@),
            sv.len() == sorted@.len(),
            dict.words@.len() <= WORD_RANGE_LEN,
            out_words@ == pairs_words(*dict, sv.take(m as int)),
        decreases sorted@.len() - m,
    {
        let ghost payload = sv[m as int].1;
        let mut j: usize = 0;
        proof {
            assert(payload.take(0) =~= Seq::<int>::empty());
            assert(payload_words(*dict, payload.take(0)) == Seq::<u16>::empty());
            assert(out_words@ =~= pairs_words(*dict, sv.take(m as int)) + payload_words(
                *dict,
                payload.take(0),
            ));
        }
        while j < sorted[m].1.len()
            invariant
                m < sorted@.len(),
                j <= sorted@[m as int].1@.len(),
                sv == pairs_view(sorted@),
                sv.len() == sorted@.len(),
                payload == sv[m as int].1,
                payload.len() == sorted@[m as int].1@.len(),
                forall|i: int|
                    0 <= i < payload.len() ==> payload[i] == (#[trigger] sorted@[m as int].1@[i]) as int,
                dict.words@.len() <= WORD_RANGE_LEN,
                out_words@ == pairs_words(*dict, sv.take(m as int)) + payload_words(
                    *dict,
                    payload.take(j as int),
                ),
            decreases sorted@[m as int].1@.len() - j,
        {
            proof {
                assert(payload.take(j as int + 1) =~= payload.take(j as int).push(
                    payload[j as int],
                ));
                lemma_payload_words_push(*dict, payload.take(j as int), payload[j as int]);
            }
            let idx = sorted[m].1[j];
            if idx <= u32::MAX as usize {
                match dict.reverse_lookup(idx as u32) {
                    Some(w) => {
                        out_words.push(w);
                        proof {
                            assert(out_words@ =~= pairs_words(*dict, sv.take(m as int))
                                + payload_words(*dict, payload.take(j as int + 1)));
                        }
                    },
                    None => {
                        proof {
                            assert(payload_words(*dict, payload.take(j as int))
                                + Seq::<u16>::empty() =~= payload_words(
                                *dict,
                                payload.take(j as int),
                            ));
                        }
                    },
                }
            } else {
                proof {
                    assert(payload[j as int] > u32::MAX);
                    lemma_rev_none(dict.words@, payload[j as int]);
                    assert(payload_words(*dict, payload.take(j as int)) + Seq::<u16>::empty()
                        =~= payload_words(*dict, payload.take(j as int)));
                }
            }
            j = j + 1;
        }
        proof {
            assert(payload.take(payload.len() as int) =~= payload);
            assert(sv.take(m as int + 1) =~= sv.take(m as int).push(sv[m as int]));
            lemma_pairs_words_push(*dict, sv.take(m as int), sv[m as int]);
        }
        m = m + 1;
    }
    proof {
        assert(sv.take(sv.len() as int) =~= sv);
    }
    let bytes = decode_bytes(&out_words);
    Ok(bytes)
}

// ---------------------------------------------------------------------------
// Encoder lemmas and helpers
// ---------------------------------------------------------------------------


proof fn lemma_max_word_len_elem(ws: Seq<Seq<char>>, k: int)
    requires
        0 <= k < ws.len(),
    ensures
        ws[k].len() <= max_word_len(ws),
    decreases k,
{
    if k > 0 {
        assert(ws.drop_first()[k - 1] == ws[k]);
        lemma_max_word_len_elem(ws.drop_first(), k - 1);
    }
}

proof fn lemma_max_word_len_push(ws: Seq<Seq<char>>, w: Seq<char>)
    ensures
        max_word_len(ws.push(w)) == (if w.len() > max_word_len(ws) {
            w.len() as int
        } else {
            max_word_len(ws)
        }),
    decreases ws.len(),
{
    if ws.len() == 0 {
        assert(ws.push(w).drop_first() =~= Seq::<Seq<char>>::empty());
        assert(max_word_len(Seq::<Seq<char>>::empty()) == 0);
    } else {
        assert(ws.push(w).drop_first() =~= ws.drop_first().push(w));
        lemma_max_word_len_push(ws.drop_first(), w);
    }
}

/// The join of one word prepended to a nonempty sequence.
proof fn lemma_join_prepend(w: Seq<char>, ws: Seq<Seq<char>>)
    requires
        ws.len() >= 1,
    ensures
        join_spec(seq![w] + ws) == w + seq![' '] + join_spec(ws),
{
    let s = seq![w] + ws;
    assert(s.len() >= 2);
    assert(s[0] == w);
    assert(s.drop_first() =~= ws);
}

/// The longest catalog word of an index range of the table.
fn max_range_word_len(range: &Vec<u32>, catalog: &Vec<String>) -> (m: usize)
    requires
        forall|i: int| 0 <= i < range@.len() ==> (#[trigger] range@[i]) < catalog@.len(),
    ensures
        m as int == max_word_len(range_words(catalog.deep_view(), range@)),
{
    let ghost cat = catalog.deep_view();
    let mut m: usize = 0;
    let mut k: usize = 0;
    proof {
        assert(range_words(cat, range@.take(0)) =~= Seq::<Seq<char>>::empty());
    }
    while k < range.len()
        invariant
            k <= range@.len(),
            cat == catalog.deep_view(),
            cat.len() == catalog@.len(),
            forall|i: int| 0 <= i < range@.len() ==> (#[trigger] range@[i]) < catalog@.len(),
            m as int == max_word_len(range_words(cat, range@.take(k as int))),
        decreases range@.len() - k,
    {
        proof {
            assert(range_words(cat, range@.take(k as int + 1)) =~= range_words(
                cat,
                range@.take(k as int),
            ).push(cat[range@[k as int] as int]));
            lemma_max_word_len_push(
                range_words(cat, range@.take(k as int)),
                cat[range@[k as int] as int],
            );
        }
        let idx = range[k] as usize;
        let l = catalog[idx].as_str().unicode_len();
        if l > m {
            m = l;
        }
        k = k + 1;
    }
    proof {
        assert(range@.take(range@.len() as int) =~= range@);
    }
    m
}

/// The longest word of a word list.
fn max_words_len(ws: &Vec<String>) -> (m: usize)
    ensures
        m as int == max_word_len(ws.deep_view()),
{
    let mut m: usize = 0;
    let mut k: usize = 0;
    proof {
        assert(ws.deep_view().take(0) =~= Seq::<Seq<char>>::empty());
    }
    while k < ws.len()
        invariant
            k <= ws@.len(),
            ws.deep_view().len() == ws@.len(),
            m as int == max_word_len(ws.deep_view().take(k as int)),
        decreases ws@.len() - k,
    {
        proof {
            assert(ws.deep_view().take(k as int + 1) =~= ws.deep_view().take(k as int).push(
                ws.deep_view()[k as int],
            ));
            lemma_max_word_len_push(ws.deep_view().take(k as int), ws.deep_view()[k as int]);
        }
        let l = ws[k].as_str().unicode_len();
        if l > m {
            m = l;
        }
        k = k + 1;
    }
    proof {
        assert(ws.deep_view().take(ws@.len() as int) =~= ws.deep_view());
    }
    m
}

/// The coded catalog word of every 16-bit data word, in order.
fn coded_word_vec(data: &Vec<u8>, dict: &DictMappings, catalog: &Vec<String>) -> (out: Vec<String>)
    requires
        dict.words@.len() == WORD_RANGE_LEN,
        forall|i: int| 0 <= i < dict.words@.len() ==> (#[trigger] dict.words@[i]) < catalog@.len(),
    ensures
        out.deep_view() == coded_words(data@, *dict, catalog.deep_view()),
{
    let ghost cat = catalog.deep_view();
    let ghost cw = coded_words(data@, *dict, cat);
    let ws = encode_words(data);
    let mut out: Vec<String> = Vec::new();
    let mut i: usize = 0;
    proof {
        assert(out.deep_view() =~~= cw.take(0));
    }
    while i < ws.len()
        invariant
            i <= ws@.len(),
            cat == catalog.deep_view(),
            cat.len() == catalog@.len(),
            cw == coded_words(data@, *dict, cat),
            ws@ == bytes_to_words(data@),
            cw.len() == ws@.len(),
            dict.words@.len() == WORD_RANGE_LEN,
            forall|j: int| 0 <= j < dict.words@.len() ==> (#[trigger] dict.words@[j]) < catalog@.len(),
            out@.len() == i,
            out.deep_view() == cw.take(i as int),
        decreases ws@.len() - i,
    {
        let w = ws[i];
        let word = catalog[dict.words[w as usize] as usize].clone();
        let ghost odv = out.deep_view();
        proof {
            assert(cw[i as int] == cat[dict.words@[w as int] as int]);
            assert(word@ == cat[dict.words@[w as int] as int]);
        }
        out.push(word);
        proof {
            assert(out.deep_view() =~~= odv.push(word@));
            assert(odv.push(word@) =~~= cw.take(i as int + 1));
        }
        i = i + 1;
    }
    proof {
        assert(cw.take(cw.len() as int) =~= cw);
    }
    out
}

/// Render one message: the head message joins its segment alone; a
/// continuation message joins a randomly chosen fragment marker, the coded
/// word of its sequence number, and its segment.
fn render_message(m: usize, seg: &Vec<String>, dict: &DictMappings, catalog: &Vec<String>) -> (r:
    (String, Ghost<int>))
    requires
        seg@.len() >= 1,
        m >= 1 ==> dict.fragment@.len() > 0,
        m >= 1 ==> m < dict.words@.len(),
        m >= 1 ==> forall|i: int|
            0 <= i < dict.fragment@.len() ==> (#[trigger] dict.fragment@[i]) < catalog@.len(),
        m >= 1 ==> dict.words@[m as int] < catalog@.len(),
    ensures
        m == 0 ==> r.0@ == join_spec(seg.deep_view()),
        m >= 1 ==> 0 <= r.1@ < dict.fragment@.len(),
        m >= 1 ==> r.0@ == join_spec(
            seq![
                catalog.deep_view()[dict.fragment@[r.1@] as int],
                catalog.deep_view()[dict.words@[m as int] as int],
            ] + seg.deep_view(),
        ),
{
    let ghost cat = catalog.deep_view();
    if m == 0 {
        return (join_words(seg), Ghost(0int));
    }
    let fw = choose_index(&dict.fragment);
    let ghost f = choose|i: int| 0 <= i < dict.fragment@.len() && dict.fragment@[i] == fw;
    proof {
        assert(dict.fragment@[f] == fw);
        assert(fw < catalog@.len());
    }
    let mut words: Vec<String> = Vec::new();
    words.push(catalog[fw as usize].clone());
    words.push(catalog[dict.words[m] as usize].clone());
    let ghost pre = seq![cat[dict.fragment@[f] as int], cat[dict.words@[m as int] as int]];
    proof {
        assert(words.deep_view() =~~= pre + seg.deep_view().take(0));
    }
    let mut k: usize = 0;
    while k < seg.len()
        invariant
            k <= seg@.len(),
            cat == catalog.deep_view(),
            cat.len() == catalog@.len(),
            seg.deep_view().len() == seg@.len(),
            1 <= m < dict.words@.len(),
            0 <= f < dict.fragment@.len(),
            dict.fragment@[f] < catalog@.len(),
            dict.words@[m as int] < catalog@.len(),
            pre == seq![cat[dict.fragment@[f] as int], cat[dict.words@[m as int] as int]],
            words@.len() == 2 + k,
            words.deep_view() == pre + seg.deep_view().take(k as int),
        decreases seg@.len() - k,
    {
        let ghost wdv = words.deep_view();
        let x = seg[k].clone();
        proof {
            assert(x@ == seg.deep_view()[k as int]);
        }
        words.push(x);
        proof {
            assert(words.deep_view() =~~= wdv.push(seg.deep_view()[k as int]));
            assert(wdv.push(seg.deep_view()[k as int]) =~~= pre + seg.deep_view().take(
                k as int + 1,
            ));
        }
        k = k + 1;
    }
    proof {
        assert(seg.deep_view().take(seg@.len() as int) =~= seg.deep_view());
    }
    (join_words(&words), Ghost(f))
}


/// Don armor: encode the data as a list of messages, each within the
/// character limit. The begin, end and fragment markers are drawn at random;
/// everything else about the output is determined by the inputs.
#[verifier::loop_isolation(false)]
#[verifier::rlimit(60)]
pub fn don(
    data: &Vec<u8>,
    dict: &DictMappings,
    catalog: &Vec<String>,
    character_limit: usize,
) -> (r: Result<Vec<String>, ArmorError>)
    requires
        table_wf(*dict, catalog@.len() as int),
        data@.len() + 4 <= 2 * WORD_RANGE_LEN,
    ensures
        r matches Ok(msgs) ==> is_armor_output(msgs.deep_view(), data@, *dict, catalog.deep_view()),
        r matches Ok(msgs) ==> (forall|m: int|
            0 <= m < msgs@.len() ==> (#[trigger] msgs.deep_view()[m]).len() <= character_limit),
        r is Ok <==> don_fits(data@, *dict, catalog.deep_view(), character_limit as int),
        r matches Err(er) ==> er == ArmorError::LimitTooSmall,
{
    let ghost t = *dict;
    let ghost cat = catalog.deep_view();
    proof {
        assert(cat.len() == catalog@.len());
        assert(forall|i: int| 0 <= i < t.begin@.len() ==> perm_seq(t)[i] == (#[trigger] t.begin@[i]));
        assert(forall|i: int|
            0 <= i < t.end@.len() ==> perm_seq(t)[5 + i] == (#[trigger] t.end@[i]));
        assert(forall|i: int|
            0 <= i < t.fragment@.len() ==> perm_seq(t)[10 + i] == (#[trigger] t.fragment@[i]));
        assert(forall|i: int|
            0 <= i < t.words@.len() ==> perm_seq(t)[15 + i] == (#[trigger] t.words@[i]));
        assert(forall|i: int| 0 <= i < t.begin@.len() ==> (#[trigger] t.begin@[i]) < cat.len());
        assert(forall|i: int| 0 <= i < t.end@.len() ==> (#[trigger] t.end@[i]) < cat.len());
        assert(forall|i: int|
            0 <= i < t.fragment@.len() ==> (#[trigger] t.fragment@[i]) < cat.len());
        assert(forall|i: int| 0 <= i < t.words@.len() ==> (#[trigger] t.words@[i]) < cat.len());
    }
    let frag_max = max_range_word_len(&dict.fragment, catalog);
    let word_max = max_range_word_len(&dict.words, catalog);
    let begin_max = max_range_word_len(&dict.begin, catalog);
    let end_max = max_range_word_len(&dict.end, catalog);
    let mut coded = coded_word_vec(data, dict, catalog);
    let coded_max = max_words_len(&coded);
    let reserve: u128 = frag_max as u128 + 2u128 + word_max as u128;
    let limit: u128 = character_limit as u128;
    proof {
        assert(reserve == don_reserve(t, cat));
    }
    if begin_max as u128 + reserve > limit || end_max as u128 + reserve > limit || coded_max
        as u128 + reserve > limit {
        return Err(ArmorError::LimitTooSmall);
    }
    proof {
        assert(don_fits(data@, t, cat, character_limit as int));
    }
    let bw = choose_index(&dict.begin);
    let ew = choose_index(&dict.end);
    let ghost b = choose|bi: int| 0 <= bi < t.begin@.len() && t.begin@[bi] == bw;
    let ghost e = choose|ei: int| 0 <= ei < t.end@.len() && t.end@[ei] == ew;
    proof {
        assert(t.begin@[b] == bw && bw < cat.len());
        assert(t.end@[e] == ew && ew < cat.len());
    }
    let ghost fidx = full_index_seq(data@, t, b, e);
    let ghost fdv = cat_words(cat, fidx);
    let ghost cw = coded_words(data@, t, cat);
    let ghost codedv = coded@;
    proof {
        assert(codedv.len() == cw.len());
        assert(forall|j: int|
            0 <= j < codedv.len() ==> (#[trigger] codedv[j])@ == cw[j]);
    }
    let mut full: Vec<String> = Vec::new();
    full.push(catalog[bw as usize].clone());
    full.append(&mut coded);
    full.push(catalog[ew as usize].clone());
    proof {
        assert(fidx.len() == 2 + bytes_to_words(data@).len());
        assert(fidx.len() <= WORD_RANGE_LEN as int);
        assert(full@.len() == fidx.len());
        assert(fdv.len() == fidx.len());
        let wmap = bytes_to_words(data@).map_values(|w: u16| t.words@[w as int] as int);
        assert forall|k: int| 0 <= k < fidx.len() implies full.deep_view()[k] == fdv[k] by {
            assert(fdv[k] == cat[fidx[k]]);
            if k == 0 {
                assert(fidx[0] == t.begin@[b] as int);
                assert(full@[0]@ == cat[bw as int]);
            } else if k == fidx.len() - 1 {
                assert(fidx[k] == t.end@[e] as int);
                assert(full@[k]@ == cat[ew as int]);
            } else {
                assert(fidx[k] == wmap[k - 1]);
                assert(full@[k] == codedv[k - 1]);
                assert(codedv[k - 1]@ == cw[k - 1]);
                assert(cw[k - 1] == cat[t.words@[bytes_to_words(data@)[k - 1] as int] as int]);
            }
        }
        assert(full.deep_view() =~~= fdv);
        assert forall|kk: int| 0 <= kk < fdv.len() implies (#[trigger] fdv[kk]).len() + reserve
            <= limit by {
            if kk == 0 {
                assert(fdv[kk] == range_words(cat, t.begin@)[b]);
                lemma_max_word_len_elem(range_words(cat, t.begin@), b);
            } else if kk == fdv.len() - 1 {
                assert(fdv[kk] == range_words(cat, t.end@)[e]);
                lemma_max_word_len_elem(range_words(cat, t.end@), e);
            } else {
                assert(fdv[kk] == coded_words(data@, t, cat)[kk - 1]);
                lemma_max_word_len_elem(coded_words(data@, t, cat), kk - 1);
            }
        }
    }
    let mut msgs: Vec<String> = Vec::new();
    let mut cur: Vec<String> = Vec::new();
    let mut count: u128 = 0;
    let ghost mut splits: Seq<int> = seq![0int];
    let ghost mut frags: Seq<int> = Seq::empty();
    let mut i: usize = 0;
    while i < full.len()
        invariant
            i <= full@.len(),
            splits.len() == msgs@.len() + 1,
            splits[0] == 0,
            forall|m: int| 0 <= m < msgs@.len() ==> #[trigger] splits[m] < splits[m + 1],
            forall|m: int| 0 <= m <= msgs@.len() ==> 0 <= #[trigger] splits[m] <= i,
            forall|m: int| 0 <= m <= msgs@.len() ==> m <= #[trigger] splits[m],
            splits[msgs@.len() as int] + cur@.len() == i,
            cur.deep_view() == fdv.subrange(splits[msgs@.len() as int], i as int),
            cur@.len() == cur.deep_view().len(),
            i > 0 ==> cur@.len() >= 1,
            i == 0 ==> msgs@.len() == 0 && cur@.len() == 0,
            cur@.len() >= 1 ==> count == join_spec(cur.deep_view()).len(),
            cur@.len() >= 1 ==> count + reserve <= limit,
            frags.len() == msgs@.len(),
            forall|m: int| 1 <= m < msgs@.len() ==> 0 <= #[trigger] frags[m] < t.fragment@.len(),
            msgs.deep_view().len() == msgs@.len(),
            msgs@.len() >= 1 ==> msgs.deep_view()[0] == join_spec(
                fdv.subrange(splits[0], splits[1]),
            ),
            forall|m: int|
                1 <= m < msgs@.len() ==> #[trigger] msgs.deep_view()[m] == join_spec(
                    seq![cat[t.fragment@[frags[m]] as int], cat[t.words@[m] as int]]
                        + fdv.subrange(splits[m], splits[m + 1]),
                ),
            forall|m: int|
                0 <= m < msgs@.len() ==> (#[trigger] msgs.deep_view()[m]).len() <= limit,
        decreases full@.len() - i,
    {
        let ghost s0 = splits[msgs@.len() as int];
        let wl: u128 = full[i].as_str().unicode_len() as u128;
        proof {
            assert(full.deep_view()[i as int] == fdv[i as int]);
            assert(wl == fdv[i as int].len());
            assert(fdv[i as int].len() + reserve <= limit);
        }
        if cur.len() == 0 {
            cur.push(full[i].clone());
            count = wl;
            proof {
                assert(cur.deep_view() =~~= seq![fdv[i as int]]);
                assert(join_spec(seq![fdv[i as int]]) == fdv[i as int]);
                assert(i == 0 && s0 == 0);
                assert(seq![fdv[0]] =~~= fdv.subrange(0, 1));
            }
        } else {
            let cand: u128 = count + 1 + wl;
            if cand + reserve > limit {
                let m = msgs.len();
                proof {
                    assert(m as int <= splits[m as int]);
                    assert(splits[m as int] + cur@.len() == i);
                    assert(m as int <= i - 1);
                    if m >= 1 {
                        assert(m < t.words@.len());
                    }
                }
                let (rendered, gf) = render_message(m, &cur, dict, catalog);
                proof {
                    if m == 0 {
                        assert(rendered@.len() == count);
                    } else {
                        let fragw = cat[t.fragment@[gf@] as int];
                        let seqw = cat[t.words@[m as int] as int];
                        assert(seq![fragw, seqw] + cur.deep_view() =~~= seq![fragw] + (seq![seqw]
                            + cur.deep_view()));
                        lemma_join_prepend(seqw, cur.deep_view());
                        lemma_join_prepend(fragw, seq![seqw] + cur.deep_view());
                        assert(rendered@.len() == fragw.len() + 1 + seqw.len() + 1 + count);
                        assert(fragw == range_words(cat, t.fragment@)[gf@]);
                        lemma_max_word_len_elem(range_words(cat, t.fragment@), gf@);
                        assert(seqw == range_words(cat, t.words@)[m as int]);
                        lemma_max_word_len_elem(range_words(cat, t.words@), m as int);
                        assert(rendered@.len() <= limit);
                    }
                }
                let ghost mdv0 = msgs.deep_view();
                msgs.push(rendered);
                proof {
                    assert(msgs.deep_view() =~~= mdv0.push(rendered@));
                    splits = splits.push(i as int);
                    frags = frags.push(gf@);
                }
                cur = Vec::new();
                cur.push(full[i].clone());
                count = wl;
                proof {
                    assert(cur.deep_view() =~~= seq![fdv[i as int]]);
                    assert(join_spec(seq![fdv[i as int]]) == fdv[i as int]);
                    assert(seq![fdv[i as int]] =~~= fdv.subrange(i as int, i as int + 1));
                }
            } else {
                let ghost cdv = cur.deep_view();
                proof {
                    lemma_join_push(cdv, fdv[i as int]);
                }
                cur.push(full[i].clone());
                count = cand;
                proof {
                    assert(cur.deep_view() =~~= cdv.push(fdv[i as int]));
                    assert(cdv.push(fdv[i as int]) =~~= fdv.subrange(s0, i as int + 1));
                }
            }
        }
        i = i + 1;
    }
    let m = msgs.len();
    proof {
        assert(cur@.len() >= 1);
        assert(m as int <= splits[m as int]);
        assert(splits[m as int] + cur@.len() == fidx.len());
        if m >= 1 {
            assert(m < t.words@.len());
        }
    }
    let (rendered, gf) = render_message(m, &cur, dict, catalog);
    proof {
        if m == 0 {
            assert(rendered@.len() == count);
        } else {
            let fragw = cat[t.fragment@[gf@] as int];
            let seqw = cat[t.words@[m as int] as int];
            assert(seq![fragw, seqw] + cur.deep_view() =~~= seq![fragw] + (seq![seqw]
                + cur.deep_view()));
            lemma_join_prepend(seqw, cur.deep_view());
            lemma_join_prepend(fragw, seq![seqw] + cur.deep_view());
            assert(rendered@.len() == fragw.len() + 1 + seqw.len() + 1 + count);
            assert(fragw == range_words(cat, t.fragment@)[gf@]);
            lemma_max_word_len_elem(range_words(cat, t.fragment@), gf@);
            assert(seqw == range_words(cat, t.words@)[m as int]);
            lemma_max_word_len_elem(range_words(cat, t.words@), m as int);
            assert(rendered@.len() <= limit);
        }
    }
    let ghost mdv0 = msgs.deep_view();
    msgs.push(rendered);
    proof {
        assert(msgs.deep_view() =~~= mdv0.push(rendered@));
        splits = splits.push(fidx.len() as int);
        frags = frags.push(gf@);
        assert(is_armor_output_with(msgs.deep_view(), data@, t, cat, b, e, splits, frags));
        assert(is_armor_output(msgs.deep_view(), data@, t, cat));
    }
    Ok(msgs)
}


// ---------------------------------------------------------------------------
// Round trip: doffing any armor output recovers the padded data
// ---------------------------------------------------------------------------

proof fn lemma_token_catalog(cat: Seq<Seq<char>>, i: int)
    requires
        catalog_distinct(cat),
        0 <= i < cat.len(),
    ensures
        token_index(cat, cat[i]) == Some(i),
{
    lemma_token_found(cat, cat[i], i);
}

proof fn lemma_indices_of_catalog_words(cat: Seq<Seq<char>>, idxs: Seq<int>)
    requires
        catalog_distinct(cat),
        forall|k: int| 0 <= k < idxs.len() ==> 0 <= #[trigger] idxs[k] < cat.len(),
    ensures
        msg_index_seq(cat, cat_words(cat, idxs)) == idxs,
    decreases idxs.len(),
{
    let ws = cat_words(cat, idxs);
    if idxs.len() == 0 {
        assert(ws =~= Seq::<Seq<char>>::empty());
        assert(msg_index_seq(cat, ws) =~= idxs);
    } else {
        assert(ws.len() == idxs.len());
        assert(ws[0] == cat[idxs[0]]);
        lemma_token_catalog(cat, idxs[0]);
        assert(ws.drop_first() =~= cat_words(cat, idxs.drop_first()));
        assert(forall|k: int|
            0 <= k < idxs.drop_first().len() ==> idxs.drop_first()[k] == idxs[k + 1]);
        lemma_indices_of_catalog_words(cat, idxs.drop_first());
        assert(msg_index_seq(cat, ws) =~= seq![idxs[0]] + idxs.drop_first());
        assert(seq![idxs[0]] + idxs.drop_first() =~= idxs);
    }
}

proof fn lemma_all_pairs_pointwise(
    t: DictMappings,
    cat: Seq<Seq<char>>,
    msgs: Seq<Seq<char>>,
    ps: Seq<(u16, Seq<int>)>,
)
    requires
        ps.len() == msgs.len(),
        forall|m: int|
            0 <= m < msgs.len() ==> message_pair(t, cat, #[trigger] msgs[m]) == Some(ps[m]),
    ensures
        all_pairs(t, cat, msgs) == Some(ps),
    decreases msgs.len(),
{
    if msgs.len() == 0 {
        assert(ps =~= Seq::<(u16, Seq<int>)>::empty());
    } else {
        assert(forall|m: int|
            0 <= m < msgs.drop_first().len() ==> msgs.drop_first()[m] == msgs[m + 1]);
        assert(forall|m: int|
            0 <= m < ps.drop_first().len() ==> ps.drop_first()[m] == ps[m + 1]);
        lemma_all_pairs_pointwise(t, cat, msgs.drop_first(), ps.drop_first());
        assert(message_pair(t, cat, msgs[0]) == Some(ps[0]));
        assert(seq![ps[0]] + ps.drop_first() =~= ps);
    }
}

proof fn lemma_insert_sorted_end(s: Seq<(u16, Seq<int>)>, p: (u16, Seq<int>))
    requires
        forall|k: int| 0 <= k < s.len() ==> (#[trigger] s[k]).0 <= p.0,
    ensures
        insert_sorted(p, s) == s.push(p),
{
    lemma_insert_sorted_at(s, p, s.len() as int);
    assert(s.insert(s.len() as int, p) =~= s.push(p));
}

proof fn lemma_sort_already_sorted(acc: Seq<(u16, Seq<int>)>, s: Seq<(u16, Seq<int>)>)
    requires
        forall|a: int, x: int|
            0 <= a < acc.len() && 0 <= x < s.len() ==> (#[trigger] acc[a]).0 <= (#[trigger] s[x]).0,
        forall|x: int, y: int| 0 <= x < y < s.len() ==> (#[trigger] s[x]).0 <= (#[trigger] s[y]).0,
    ensures
        sort_acc(acc, s) == acc + s,
    decreases s.len(),
{
    if s.len() == 0 {
        assert(acc + s =~= acc);
    } else {
        lemma_insert_sorted_end(acc, s[0]);
        assert(forall|x: int| 0 <= x < s.drop_first().len() ==> s.drop_first()[x] == s[x + 1]);
        lemma_sort_already_sorted(acc.push(s[0]), s.drop_first());
        assert(acc.push(s[0]) + s.drop_first() =~= acc + s);
    }
}

proof fn lemma_payload_words_concat(t: DictMappings, a: Seq<int>, b: Seq<int>)
    ensures
        payload_words(t, a + b) == payload_words(t, a) + payload_words(t, b),
    decreases a.len(),
{
    if a.len() == 0 {
        assert(a + b =~= b);
        assert(payload_words(t, a) =~= Seq::<u16>::empty());
        assert(payload_words(t, a) + payload_words(t, b) =~= payload_words(t, b));
    } else {
        assert((a + b)[0] == a[0]);
        assert((a + b).drop_first() =~= a.drop_first() + b);
        lemma_payload_words_concat(t, a.drop_first(), b);
        assert(payload_words(t, a + b) =~= payload_words(t, a) + payload_words(t, b));
    }
}

proof fn lemma_payload_words_of_coded(t: DictMappings, cat_len: int, ws: Seq<u16>)
    requires
        table_wf(t, cat_len),
    ensures
        payload_words(t, ws.map_values(|w: u16| t.words@[w as int] as int)) == ws,
    decreases ws.len(),
{
    let idxs = ws.map_values(|w: u16| t.words@[w as int] as int);
    if ws.len() == 0 {
        assert(payload_words(t, idxs) =~= ws);
    } else {
        lemma_reverse_lookup_correct(t, cat_len, ws[0]);
        assert(idxs[0] == t.words@[ws[0] as int] as int);
        assert(rev_spec(t.words@, idxs[0]) == Some(ws[0]));
        assert(idxs.drop_first() =~= ws.drop_first().map_values(
            |w: u16| t.words@[w as int] as int,
        ));
        lemma_payload_words_of_coded(t, cat_len, ws.drop_first());
        assert(payload_words(t, idxs) =~= seq![ws[0]] + ws.drop_first());
        assert(seq![ws[0]] + ws.drop_first() =~= ws);
    }
}


proof fn lemma_table_range_facts(t: DictMappings, cat_len: int)
    requires
        table_wf(t, cat_len),
    ensures
        forall|i: int| 0 <= i < t.begin@.len() ==> (#[trigger] t.begin@[i]) < cat_len,
        forall|i: int| 0 <= i < t.end@.len() ==> (#[trigger] t.end@[i]) < cat_len,
        forall|i: int| 0 <= i < t.fragment@.len() ==> (#[trigger] t.fragment@[i]) < cat_len,
        forall|i: int| 0 <= i < t.words@.len() ==> (#[trigger] t.words@[i]) < cat_len,
{
    assert(forall|i: int| 0 <= i < t.begin@.len() ==> perm_seq(t)[i] == (#[trigger] t.begin@[i]));
    assert(forall|i: int| 0 <= i < t.end@.len() ==> perm_seq(t)[5 + i] == (#[trigger] t.end@[i]));
    assert(forall|i: int|
        0 <= i < t.fragment@.len() ==> perm_seq(t)[10 + i] == (#[trigger] t.fragment@[i]));
    assert(forall|i: int|
        0 <= i < t.words@.len() ==> perm_seq(t)[15 + i] == (#[trigger] t.words@[i]));
}

#[verifier::rlimit(100)]
proof fn lemma_armor_message_pair(
    msgs: Seq<Seq<char>>,
    data: Seq<u8>,
    t: DictMappings,
    cat: Seq<Seq<char>>,
    b: int,
    e: int,
    splits: Seq<int>,
    frags: Seq<int>,
    m: int,
)
    requires
        catalog_ok(cat),
        table_wf(t, cat.len() as int),
        is_armor_output_with(msgs, data, t, cat, b, e, splits, frags),
        0 <= m < msgs.len(),
    ensures
        message_pair(t, cat, msgs[m]) == Some(
            (m as u16, full_index_seq(data, t, b, e).subrange(
                if m == 0 { 1int } else { splits[m] },
                splits[m + 1],
            )),
        ),
{
    let fidx = full_index_seq(data, t, b, e);
    let full = cat_words(cat, fidx);
    let wmap = bytes_to_words(data).map_values(|w: u16| t.words@[w as int] as int);
    let kk = msgs.len() as int;
    lemma_splits_nonneg(splits, kk, m);
    lemma_splits_le(splits, kk, m + 1, kk);
    assert(0 <= splits[m] && splits[m] < splits[m + 1] && splits[m + 1] <= fidx.len());
    lemma_table_range_facts(t, cat.len() as int);
    assert forall|i: int| 0 <= i < fidx.len() implies 0 <= #[trigger] fidx[i] < cat.len() by {
        if i == 0 {
            assert(fidx[i] == t.begin@[b] as int);
        } else if i == fidx.len() - 1 {
            assert(fidx[i] == t.end@[e] as int);
        } else {
            assert(fidx[i] == wmap[i - 1]);
            assert(wmap[i - 1] == t.words@[bytes_to_words(data)[i - 1] as int] as int);
        }
    }
    let idxs = if m == 0 {
        fidx.subrange(splits[0], splits[1])
    } else {
        seq![t.fragment@[frags[m]] as int, t.words@[m] as int] + fidx.subrange(
            splits[m],
            splits[m + 1],
        )
    };
    assert(forall|x: int| 0 <= x < idxs.len() ==> 0 <= #[trigger] idxs[x] < cat.len());
    let words_m = cat_words(cat, idxs);
    if m == 0 {
        assert(full.subrange(splits[0], splits[1]) =~= words_m);
    } else {
        assert(seq![cat[t.fragment@[frags[m]] as int], cat[t.words@[m] as int]] + full.subrange(
            splits[m],
            splits[m + 1],
        ) =~= words_m);
    }
    assert(msgs[m] == join_spec(words_m));
    assert(all_space_free(words_m)) by {
        assert(forall|x: int| 0 <= x < words_m.len() ==> words_m[x] == cat[#[trigger] idxs[x]]);
        assert(forall|x: int| 0 <= x < words_m.len() ==> space_free(#[trigger] words_m[x]));
    }
    assert(words_m.len() >= 1);
    lemma_split_join(words_m);
    lemma_indices_of_catalog_words(cat, idxs);
    assert(msg_index_seq(cat, split_spec(msgs[m])) == idxs);
    if m == 0 {
        assert(idxs[0] == fidx[0]);
        assert(fidx[0] == t.begin@[b] as int);
        assert(in_range(t.begin@, idxs[0])) by {
            assert(t.begin@[b] == fidx[0]);
        }
        assert(idxs.drop_first() =~= fidx.subrange(1, splits[1]));
        assert(classify_spec(t, idxs) == Some((0u16, idxs.drop_first())));
    } else {
        assert(idxs[0] == t.fragment@[frags[m]] as int);
        assert(!in_range(t.begin@, idxs[0])) by {
            assert forall|j: int| 0 <= j < t.begin@.len() implies (#[trigger] t.begin@[j])
                != t.fragment@[frags[m]] by {
                assert(perm_seq(t)[j] == t.begin@[j]);
                assert(perm_seq(t)[10 + frags[m]] == t.fragment@[frags[m]]);
            }
        }
        assert(in_range(t.fragment@, idxs[0])) by {
            assert(t.fragment@[frags[m]] == idxs[0]);
        }
        assert(idxs.len() >= 2);
        assert(idxs[1] == t.words@[m] as int);
        assert(0 <= m < WORD_RANGE_LEN);
        lemma_reverse_lookup_correct(t, cat.len() as int, m as u16);
        assert(t.words@[(m as u16) as int] == t.words@[m]);
        assert(rev_spec(t.words@, idxs[1]) == Some(m as u16));
        assert(idxs.skip(2) =~= fidx.subrange(splits[m], splits[m + 1]));
        assert(classify_spec(t, idxs) == Some((m as u16, idxs.skip(2))));
    }
}


proof fn lemma_splits_nonneg(splits: Seq<int>, k: int, m: int)
    requires
        splits.len() == k + 1,
        splits[0] == 0,
        forall|x: int| 0 <= x < k ==> #[trigger] splits[x] < splits[x + 1],
        0 <= m <= k,
    ensures
        m <= splits[m],
    decreases m,
{
    if m > 0 {
        lemma_splits_nonneg(splits, k, m - 1);
    }
}

proof fn lemma_splits_le(splits: Seq<int>, k: int, m: int, n: int)
    requires
        splits.len() == k + 1,
        forall|x: int| 0 <= x < k ==> #[trigger] splits[x] < splits[x + 1],
        0 <= m <= n <= k,
    ensures
        splits[m] <= splits[n],
    decreases n - m,
{
    if m < n {
        lemma_splits_le(splits, k, m + 1, n);
    }
}

/// Doffing any output of the encoder under the same table and catalog yields
/// exactly the data padded to even length.
#[verifier::rlimit(100)]
pub proof fn lemma_round_trip_padded(
    msgs: Seq<Seq<char>>,
    data: Seq<u8>,
    t: DictMappings,
    cat: Seq<Seq<char>>,
)
    requires
        catalog_ok(cat),
        table_wf(t, cat.len() as int),
        is_armor_output(msgs, data, t, cat),
    ensures
        doff_spec(msgs, t, cat) == Ok::<Seq<u8>, ArmorError>(padded(data)),
{
    let (b, e, splits, frags): (int, int, Seq<int>, Seq<int>) = choose|
        b: int,
        e: int,
        splits: Seq<int>,
        frags: Seq<int>,
    | is_armor_output_with(msgs, data, t, cat, b, e, splits, frags);
    assert(is_armor_output_with(msgs, data, t, cat, b, e, splits, frags));
    let fidx = full_index_seq(data, t, b, e);
    let full = cat_words(cat, fidx);
    let k = msgs.len() as int;
    let wmap = bytes_to_words(data).map_values(|w: u16| t.words@[w as int] as int);
    assert(fidx.len() == 2 + wmap.len());

    // the expected pairs
    let ps = Seq::new(msgs.len(), |m: int|
        (m as u16, fidx.subrange(if m == 0 { 1int } else { splits[m] }, splits[m + 1])));
    assert forall|m: int| 0 <= m < k implies message_pair(t, cat, #[trigger] msgs[m]) == Some(
        ps[m],
    ) by {
        lemma_armor_message_pair(msgs, data, t, cat, b, e, splits, frags, m);
    }
    lemma_all_pairs_pointwise(t, cat, msgs, ps);

    // sorting keeps the pairs in order: the keys are already ascending
    assert(forall|x: int, y: int|
        0 <= x < y < ps.len() ==> (#[trigger] ps[x]).0 <= (#[trigger] ps[y]).0);
    lemma_sort_already_sorted(Seq::empty(), ps);
    assert(Seq::<(u16, Seq<int>)>::empty() + ps =~= ps);
    assert(sort_pairs(ps) == ps);

    // the concatenated payloads are the full index list after the begin marker
    assert forall|m: int| 0 <= m <= k implies m <= #[trigger] splits[m] by {
        lemma_splits_nonneg(splits, k, m);
    }
    assert forall|m: int| 0 <= m <= k implies #[trigger] splits[m] <= fidx.len() by {
        lemma_splits_le(splits, k, m, k);
    }
    lemma_round_trip_tail(t, cat, fidx, splits, ps, k, 0);
    assert(ps.skip(0) =~= ps);
    assert(pairs_words(t, ps) == payload_words(t, fidx.subrange(1, fidx.len() as int)));

    // the tail of the index list is the coded words plus the end marker
    assert(fidx.subrange(1, fidx.len() as int) =~= wmap + seq![t.end@[e] as int]);
    lemma_payload_words_concat(t, wmap, seq![t.end@[e] as int]);
    assert(payload_words(t, seq![t.end@[e] as int]) =~= Seq::<u16>::empty()) by {
        assert(t.end@.contains(t.end@[e]));
        lemma_marker_not_word(t, cat.len() as int, t.end@[e]);
        assert(rev_spec(t.words@, t.end@[e] as int) == None::<u16>);
        assert(seq![t.end@[e] as int].drop_first() =~= Seq::<int>::empty());
        assert(payload_words(t, Seq::<int>::empty()) == Seq::<u16>::empty());
    }
    lemma_payload_words_of_coded(t, cat.len() as int, bytes_to_words(data));
    assert(pairs_words(t, ps) =~= bytes_to_words(data));

    crate::codec::lemma_codec_round_trip(data);
    assert(doff_spec(msgs, t, cat) == Ok::<Seq<u8>, ArmorError>(padded(data)));
}

proof fn lemma_round_trip_tail(
    t: DictMappings,
    cat: Seq<Seq<char>>,
    fidx: Seq<int>,
    splits: Seq<int>,
    ps: Seq<(u16, Seq<int>)>,
    k: int,
    j: int,
)
    requires
        0 <= j <= k,
        ps.len() == k,
        splits.len() == k + 1,
        splits[0] == 0,
        splits[k] == fidx.len(),
        forall|m: int| 0 <= m < k ==> #[trigger] splits[m] < splits[m + 1],
        forall|m: int| 0 <= m <= k ==> 0 <= #[trigger] splits[m] <= fidx.len(),
        k >= 1,
        forall|m: int|
            0 <= m < k ==> (#[trigger] ps[m]).1 == fidx.subrange(
                if m == 0 { 1int } else { splits[m] },
                splits[m + 1],
            ),
    ensures
        pairs_words(t, ps.skip(j)) == payload_words(
            t,
            fidx.subrange(if j == 0 { 1int } else { splits[j] }, fidx.len() as int),
        ),
    decreases k - j,
{
    if j == k {
        assert(ps.skip(j) =~= Seq::<(u16, Seq<int>)>::empty());
        assert(fidx.subrange(splits[k], fidx.len() as int) =~= Seq::<int>::empty());
        assert(payload_words(t, Seq::<int>::empty()) == Seq::<u16>::empty());
    } else {
        let start: int = if j == 0 { 1int } else { splits[j] };
        assert(splits[j] < splits[j + 1]);
        assert(splits[j] >= 0 && splits[j + 1] <= fidx.len());
        assert(start <= splits[j + 1]) by {
            if j == 0 {
                assert(splits[1] >= 1);
            }
        }
        let a = fidx.subrange(start, splits[j + 1]);
        let rest = fidx.subrange(splits[j + 1], fidx.len() as int);
        assert(fidx.subrange(start, fidx.len() as int) =~= a + rest);
        lemma_payload_words_concat(t, a, rest);
        assert(ps.skip(j)[0] == ps[j]);
        assert(ps.skip(j).drop_first() =~= ps.skip(j + 1));
        lemma_round_trip_tail(t, cat, fidx, splits, ps, k, j + 1);
        assert(pairs_words(t, ps.skip(j)) == payload_words(t, ps[j].1) + pairs_words(
            t,
            ps.skip(j + 1),
        ));
    }
}

/// Round trip: for data of even length, doffing any armor output returns the
/// data exactly.
pub proof fn lemma_round_trip(msgs: Seq<Seq<char>>, data: Seq<u8>, t: DictMappings, cat: Seq<Seq<char>>)
    requires
        catalog_ok(cat),
        table_wf(t, cat.len() as int),
        is_armor_output(msgs, data, t, cat),
        data.len() % 2 == 0,
    ensures
        doff_spec(msgs, t, cat) == Ok::<Seq<u8>, ArmorError>(data),
{
    lemma_round_trip_padded(msgs, data, t, cat);
}

/// Odd-length round trip: for data of odd length, doffing any armor output
/// returns the data with one trailing zero byte.
pub proof fn lemma_round_trip_odd(
    msgs: Seq<Seq<char>>,
    data: Seq<u8>,
    t: DictMappings,
    cat: Seq<Seq<char>>,
)
    requires
        catalog_ok(cat),
        table_wf(t, cat.len() as int),
        is_armor_output(msgs, data, t, cat),
        data.len() % 2 == 1,
    ensures
        doff_spec(msgs, t, cat) == Ok::<Seq<u8>, ArmorError>(data.push(0u8)),
{
    lemma_round_trip_padded(msgs, data, t, cat);
}


// ---------------------------------------------------------------------------
// Order independence: the decoded bytes do not depend on message order
// ---------------------------------------------------------------------------

/// No two pairs carry the same sequence number.
pub open spec fn distinct_keys(ps: Seq<(u16, Seq<int>)>) -> bool {
    forall|i: int, j: int| 0 <= i < j < ps.len() ==> (#[trigger] ps[i]).0 != (#[trigger] ps[j]).0
}

/// The pairs are ordered by ascending sequence number.
pub open spec fn sorted_keys(s: Seq<(u16, Seq<int>)>) -> bool {
    forall|i: int, j: int| 0 <= i <= j < s.len() ==> (#[trigger] s[i]).0 <= (#[trigger] s[j]).0
}

/// The pair of one well-formed message.
pub open spec fn pair_of(t: DictMappings, cat: Seq<Seq<char>>, msg: Seq<char>) -> (u16, Seq<int>) {
    message_pair(t, cat, msg).unwrap()
}

/// Where the stable insertion puts the pair: after every pair with a key at
/// most its own.
spec fn insert_pos(p: (u16, Seq<int>), s: Seq<(u16, Seq<int>)>) -> int
    decreases s.len(),
{
    if s.len() == 0 {
        0
    } else if s[0].0 <= p.0 {
        1 + insert_pos(p, s.drop_first())
    } else {
        0
    }
}

proof fn lemma_insert_pos(p: (u16, Seq<int>), s: Seq<(u16, Seq<int>)>)
    ensures
        0 <= insert_pos(p, s) <= s.len(),
        forall|k: int| 0 <= k < insert_pos(p, s) ==> (#[trigger] s[k]).0 <= p.0,
        insert_pos(p, s) < s.len() ==> s[insert_pos(p, s)].0 > p.0,
        insert_sorted(p, s) == s.insert(insert_pos(p, s), p),
    decreases s.len(),
{
    if s.len() == 0 {
        assert(insert_sorted(p, s) =~= s.insert(0, p));
    } else if s[0].0 <= p.0 {
        lemma_insert_pos(p, s.drop_first());
        let pos0 = insert_pos(p, s.drop_first());
        assert forall|k: int| 0 <= k < 1 + pos0 implies (#[trigger] s[k]).0 <= p.0 by {
            if k > 0 {
                assert(s.drop_first()[k - 1] == s[k]);
            }
        }
        if 1 + pos0 < s.len() {
            assert(s[1 + pos0] == s.drop_first()[pos0]);
        }
        assert(seq![s[0]] + s.drop_first().insert(pos0, p) =~= s.insert(1 + pos0, p));
    } else {
        assert(seq![p] + s =~= s.insert(0, p));
    }
}

proof fn lemma_insert_sorted_props(p: (u16, Seq<int>), s: Seq<(u16, Seq<int>)>)
    requires
        sorted_keys(s),
    ensures
        sorted_keys(insert_sorted(p, s)),
        insert_sorted(p, s).to_multiset() == s.to_multiset().insert(p),
{
    broadcast use vstd::multiset::group_multiset_axioms;
    broadcast use vstd::seq_lib::group_to_multiset_ensures;

    lemma_insert_pos(p, s);
    let pos = insert_pos(p, s);
    let r = s.insert(pos, p);
    assert(r.len() == s.len() + 1);
    assert forall|i: int, j: int| 0 <= i <= j < r.len() implies (#[trigger] r[i]).0
        <= (#[trigger] r[j]).0 by {
        if i < pos {
            assert(r[i] == s[i]);
        } else if i == pos {
            assert(r[i] == p);
        } else {
            assert(r[i] == s[i - 1]);
        }
        if j < pos {
            assert(r[j] == s[j]);
        } else if j == pos {
            assert(r[j] == p);
        } else {
            assert(r[j] == s[j - 1]);
            if j - 1 >= pos && pos < s.len() {
                assert(s[pos].0 <= s[j - 1].0);
            }
        }
    }
    assert(r =~= s.take(pos) + (seq![p] + s.skip(pos)));
    vstd::seq_lib::lemma_multiset_commutative(s.take(pos), seq![p] + s.skip(pos));
    vstd::seq_lib::lemma_multiset_commutative(seq![p], s.skip(pos));
    vstd::seq_lib::lemma_multiset_commutative(s.take(pos), s.skip(pos));
    assert(s =~= s.take(pos) + s.skip(pos));
    assert(seq![p] =~= Seq::<(u16, Seq<int>)>::empty().push(p));
    assert(seq![p].to_multiset() =~= Multiset::<(u16, Seq<int>)>::empty().insert(p));
    assert(r.to_multiset() =~= s.to_multiset().insert(p));
}

proof fn lemma_sort_acc_props(acc: Seq<(u16, Seq<int>)>, s: Seq<(u16, Seq<int>)>)
    requires
        sorted_keys(acc),
    ensures
        sorted_keys(sort_acc(acc, s)),
        sort_acc(acc, s).to_multiset() == acc.to_multiset().add(s.to_multiset()),
    decreases s.len(),
{
    broadcast use vstd::multiset::group_multiset_axioms;
    broadcast use vstd::seq_lib::group_to_multiset_ensures;

    if s.len() == 0 {
        assert(s.to_multiset() =~= Multiset::<(u16, Seq<int>)>::empty());
        assert(acc.to_multiset().add(s.to_multiset()) =~= acc.to_multiset());
    } else {
        lemma_insert_sorted_props(s[0], acc);
        lemma_sort_acc_props(insert_sorted(s[0], acc), s.drop_first());
        assert(s.drop_first() =~= s.remove(0));
        assert(s.remove(0).to_multiset() == s.to_multiset().remove(s[0]));
        assert(s.to_multiset().contains(s[0]));
        assert(acc.to_multiset().insert(s[0]).add(s.to_multiset().remove(s[0]))
            =~= acc.to_multiset().add(s.to_multiset()));
    }
}

proof fn lemma_sorted_unique_keys(s1: Seq<(u16, Seq<int>)>, s2: Seq<(u16, Seq<int>)>)
    requires
        sorted_keys(s1),
        sorted_keys(s2),
        distinct_keys(s1),
        s1.to_multiset() == s2.to_multiset(),
    ensures
        s1 == s2,
    decreases s1.len(),
{
    broadcast use vstd::multiset::group_multiset_axioms;
    broadcast use vstd::seq_lib::group_to_multiset_ensures;

    assert(s1.len() == s1.to_multiset().len());
    assert(s2.len() == s2.to_multiset().len());
    if s1.len() == 0 {
        assert(s1 =~= s2);
    } else {
        assert(s1.to_multiset().contains(s1[0]));
        assert(s2.to_multiset().contains(s2[0]));
        assert(s1.contains(s2[0]));
        assert(s2.contains(s1[0]));
        let i = choose|i: int| 0 <= i < s1.len() && s1[i] == s2[0];
        let j = choose|j: int| 0 <= j < s2.len() && s2[j] == s1[0];
        assert(s1[0].0 <= s1[i].0);
        assert(s2[0].0 <= s2[j].0);
        assert(s1[0].0 == s2[0].0);
        assert(s1[i].0 == s1[0].0);
        if i != 0 {
            assert(s1[0].0 != s1[i].0);
        }
        assert(s1[0] == s2[0]);
        assert(s1.drop_first() =~= s1.remove(0));
        assert(s2.drop_first() =~= s2.remove(0));
        assert(s1.remove(0).to_multiset() == s1.to_multiset().remove(s1[0]));
        assert(s2.remove(0).to_multiset() == s2.to_multiset().remove(s2[0]));
        assert(forall|x: int|
            0 <= x < s1.drop_first().len() ==> s1.drop_first()[x] == s1[x + 1]);
        assert(forall|x: int|
            0 <= x < s2.drop_first().len() ==> s2.drop_first()[x] == s2[x + 1]);
        lemma_sorted_unique_keys(s1.drop_first(), s2.drop_first());
        assert(s1 =~= Seq::<(u16, Seq<int>)>::empty().push(s1[0]) + s1.drop_first());
        assert(s2 =~= Seq::<(u16, Seq<int>)>::empty().push(s2[0]) + s2.drop_first());
    }
}

proof fn lemma_map_values_multiset<A, B>(xs: Seq<A>, ys: Seq<A>, f: spec_fn(A) -> B)
    requires
        xs.to_multiset() == ys.to_multiset(),
    ensures
        xs.map_values(f).to_multiset() == ys.map_values(f).to_multiset(),
    decreases xs.len(),
{
    broadcast use vstd::multiset::group_multiset_axioms;
    broadcast use vstd::seq_lib::group_to_multiset_ensures;

    assert(xs.len() == xs.to_multiset().len());
    assert(ys.len() == ys.to_multiset().len());
    if xs.len() == 0 {
        assert(xs.map_values(f) =~= ys.map_values(f));
    } else {
        assert(xs.to_multiset().contains(xs[0]));
        assert(ys.contains(xs[0]));
        let k = choose|k: int| 0 <= k < ys.len() && ys[k] == xs[0];
        assert(xs.drop_first() =~= xs.remove(0));
        assert(xs.remove(0).to_multiset() == xs.to_multiset().remove(xs[0]));
        assert(ys.remove(k).to_multiset() == ys.to_multiset().remove(ys[k]));
        lemma_map_values_multiset(xs.drop_first(), ys.remove(k), f);
        let mx = xs.map_values(f);
        let my = ys.map_values(f);
        assert(xs.drop_first().map_values(f) =~= mx.remove(0));
        assert(ys.remove(k).map_values(f) =~= my.remove(k));
        assert(mx.remove(0).to_multiset() == mx.to_multiset().remove(mx[0]));
        assert(my.remove(k).to_multiset() == my.to_multiset().remove(my[k]));
        assert(mx[0] == f(xs[0]));
        assert(my[k] == f(ys[k]));
        assert(mx.to_multiset().contains(mx[0]));
        assert(my.to_multiset().contains(my[k]));
        assert forall|y: B| mx.to_multiset().count(y) == my.to_multiset().count(y) by {
            if y == f(xs[0]) {
                assert(mx.to_multiset().remove(y).count(y) == mx.to_multiset().count(y) - 1);
                assert(my.to_multiset().remove(y).count(y) == my.to_multiset().count(y) - 1);
            } else {
                assert(mx.to_multiset().remove(mx[0]).count(y) == mx.to_multiset().count(y));
                assert(my.to_multiset().remove(my[k]).count(y) == my.to_multiset().count(y));
            }
        }
        assert(mx.to_multiset() =~= my.to_multiset());
    }
}

proof fn lemma_all_pairs_iff(t: DictMappings, cat: Seq<Seq<char>>, msgs: Seq<Seq<char>>)
    ensures
        all_pairs(t, cat, msgs) is Some <==> (forall|i: int|
            0 <= i < msgs.len() ==> message_pair(t, cat, #[trigger] msgs[i]) is Some),
        all_pairs(t, cat, msgs) is Some ==> (all_pairs(t, cat, msgs).unwrap().len() == msgs.len()
            && forall|i: int|
            0 <= i < msgs.len() ==> #[trigger] all_pairs(t, cat, msgs).unwrap()[i] == pair_of(
                t,
                cat,
                msgs[i],
            )),
    decreases msgs.len(),
{
    if msgs.len() > 0 {
        lemma_all_pairs_iff(t, cat, msgs.drop_first());
        let tail = msgs.drop_first();
        assert(forall|i: int| 0 <= i < tail.len() ==> tail[i] == msgs[i + 1]);
        if message_pair(t, cat, msgs[0]) is Some {
            if forall|i: int|
                0 <= i < tail.len() ==> message_pair(t, cat, #[trigger] tail[i]) is Some {
                let p0 = message_pair(t, cat, msgs[0]).unwrap();
                let rest = all_pairs(t, cat, tail).unwrap();
                assert(all_pairs(t, cat, msgs) == Some(seq![p0] + rest));
                assert forall|i: int|
                    0 <= i < msgs.len() implies message_pair(t, cat, #[trigger] msgs[i])
                    is Some by {
                    if i > 0 {
                        assert(msgs[i] == tail[i - 1]);
                    }
                }
                assert forall|i: int| 0 <= i < msgs.len() implies #[trigger] all_pairs(
                    t,
                    cat,
                    msgs,
                ).unwrap()[i] == pair_of(t, cat, msgs[i]) by {
                    if i > 0 {
                        assert((seq![p0] + rest)[i] == rest[i - 1]);
                        assert(msgs[i] == tail[i - 1]);
                    }
                }
            } else {
                let bad = choose|i: int|
                    0 <= i < tail.len() && !(message_pair(t, cat, #[trigger] tail[i]) is Some);
                assert(msgs[bad + 1] == tail[bad]);
                assert(!(message_pair(t, cat, msgs[bad + 1]) is Some));
                assert(all_pairs(t, cat, msgs) is None);
            }
        } else {
            assert(!(message_pair(t, cat, msgs[0]) is Some));
            assert(all_pairs(t, cat, msgs) is None);
        }
    }
}

/// Order independence: presenting the same collection of messages in any
/// order yields the identical decoded byte sequence, provided every message
/// is well-formed and no two messages carry the same sequence number (as
/// holds for every output of the encoder).
#[verifier::rlimit(100)]
pub proof fn lemma_order_independence(
    m1: Seq<Seq<char>>,
    m2: Seq<Seq<char>>,
    t: DictMappings,
    cat: Seq<Seq<char>>,
)
    requires
        m1.to_multiset() == m2.to_multiset(),
        all_pairs(t, cat, m1) is Some,
        distinct_keys(all_pairs(t, cat, m1).unwrap()),
    ensures
        doff_spec(m2, t, cat) is Ok,
        doff_spec(m1, t, cat) == doff_spec(m2, t, cat),
{
    broadcast use vstd::multiset::group_multiset_axioms;
    broadcast use vstd::seq_lib::group_to_multiset_ensures;

    lemma_all_pairs_iff(t, cat, m1);
    assert forall|i: int| 0 <= i < m2.len() implies message_pair(t, cat, #[trigger] m2[i])
        is Some by {
        assert(m2.contains(m2[i]));
        assert(m2.to_multiset().count(m2[i]) > 0);
        assert(m1.contains(m2[i]));
        let j = choose|j: int| 0 <= j < m1.len() && m1[j] == m2[i];
        assert(message_pair(t, cat, m1[j]) is Some);
    }
    lemma_all_pairs_iff(t, cat, m2);
    let ps1 = all_pairs(t, cat, m1).unwrap();
    let ps2 = all_pairs(t, cat, m2).unwrap();
    let f = |msg: Seq<char>| pair_of(t, cat, msg);
    assert(ps1 =~= m1.map_values(f));
    assert(ps2 =~= m2.map_values(f));
    lemma_map_values_multiset(m1, m2, f);
    assert(ps1.to_multiset() == ps2.to_multiset());
    // both sorted results hold the same pairs
    lemma_sort_acc_props(Seq::empty(), ps1);
    lemma_sort_acc_props(Seq::empty(), ps2);
    assert(Seq::<(u16, Seq<int>)>::empty().to_multiset() =~= Multiset::<(u16, Seq<int>)>::empty());
    assert(sort_pairs(ps1).to_multiset() =~= ps1.to_multiset());
    assert(sort_pairs(ps2).to_multiset() =~= ps2.to_multiset());
    // the sequence numbers stay pairwise distinct through sorting
    let key = |p: (u16, Seq<int>)| p.0;
    lemma_map_values_multiset(sort_pairs(ps1), ps1, key);
    let k1 = ps1.map_values(key);
    let ks = sort_pairs(ps1).map_values(key);
    assert(k1.no_duplicates()) by {
        assert(forall|i: int| 0 <= i < k1.len() ==> k1[i] == (#[trigger] ps1[i]).0);
    }
    k1.lemma_multiset_has_no_duplicates();
    assert(forall|x: u16| ks.to_multiset().contains(x) ==> ks.to_multiset().count(x) == 1);
    ks.lemma_multiset_has_no_duplicates_conv();
    assert(distinct_keys(sort_pairs(ps1))) by {
        assert(forall|i: int|
            0 <= i < ks.len() ==> ks[i] == (#[trigger] sort_pairs(ps1)[i]).0);
    }
    lemma_sorted_unique_keys(sort_pairs(ps1), sort_pairs(ps2));
}

} // verus!

