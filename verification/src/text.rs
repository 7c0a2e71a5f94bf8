//! Joining catalog words into a message with single spaces, and splitting a
//! message back into its tokens. Splitting is the exact inverse of joining as
//! long as no word contains a space.

use vstd::prelude::*;

verus! {

/// The word contains no space character.
pub open spec fn space_free(w: Seq<char>) -> bool {
    forall|i: int| 0 <= i < w.len() ==> w[i] != ' '
}

/// Every word of the sequence is free of spaces.
pub open spec fn all_space_free(ws: Seq<Seq<char>>) -> bool {
    forall|k: int| 0 <= k < ws.len() ==> space_free(#[trigger] ws[k])
}

/// The words joined by single spaces.
pub open spec fn join_spec(ws: Seq<Seq<char>>) -> Seq<char>
    decreases ws.len(),
{
    if ws.len() == 0 {
        Seq::empty()
    } else if ws.len() == 1 {
        ws[0]
    } else {
        ws[0] + seq![' '] + join_spec(ws.drop_first())
    }
}

/// Splitting on spaces, carrying the token read so far.
pub open spec fn split_acc(s: Seq<char>, cur: Seq<char>) -> Seq<Seq<char>>
    decreases s.len(),
{
    if s.len() == 0 {
        seq![cur]
    } else if s[0] == ' ' {
        seq![cur] + split_acc(s.drop_first(), Seq::empty())
    } else {
        split_acc(s.drop_first(), cur.push(s[0]))
    }
}

/// The tokens of a message, split on single spaces.
pub open spec fn split_spec(s: Seq<char>) -> Seq<Seq<char>> {
    split_acc(s, Seq::empty())
}

pub proof fn lemma_join_push(ws: Seq<Seq<char>>, w: Seq<char>)
    requires
        ws.len() >= 1,
    ensures
        join_spec(ws.push(w)) == join_spec(ws) + seq![' '] + w,
    decreases ws.len(),
{
    if ws.len() == 1 {
        assert(ws.push(w)[0] == ws[0]);
        assert(ws.push(w).drop_first() =~= seq![w]);
        assert(join_spec(seq![w]) == w);
        assert(join_spec(ws.push(w)) =~= join_spec(ws) + seq![' '] + w);
    } else {
        assert(ws.push(w).drop_first() =~= ws.drop_first().push(w));
        lemma_join_push(ws.drop_first(), w);
        assert(join_spec(ws.push(w)) =~= join_spec(ws) + seq![' '] + w);
    }
}

proof fn lemma_split_acc_word(w: Seq<char>, rest: Seq<char>, cur: Seq<char>)
    requires
        space_free(w),
    ensures
        split_acc(w + rest, cur) == split_acc(rest, cur + w),
    decreases w.len(),
{
    if w.len() == 0 {
        assert(w + rest =~= rest);
        assert(cur + w =~= cur);
    } else {
        assert((w + rest)[0] == w[0]);
        assert((w + rest).drop_first() =~= w.drop_first() + rest);
        assert(space_free(w.drop_first())) by {
            assert(forall|i: int|
                0 <= i < w.drop_first().len() ==> w.drop_first()[i] == w[i + 1]);
        }
        lemma_split_acc_word(w.drop_first(), rest, cur.push(w[0]));
        assert(cur.push(w[0]) + w.drop_first() =~= cur + w);
    }
}

proof fn lemma_split_acc_join(ws: Seq<Seq<char>>, cur: Seq<char>)
    requires
        ws.len() >= 1,
        all_space_free(ws),
    ensures
        split_acc(join_spec(ws), cur) == seq![cur + ws[0]] + ws.drop_first(),
    decreases ws.len(),
{
    if ws.len() == 1 {
        lemma_split_acc_word(ws[0], Seq::empty(), cur);
        assert(ws[0] + Seq::<char>::empty() =~= ws[0]);
        assert(split_acc(Seq::<char>::empty(), cur + ws[0]) == seq![cur + ws[0]]);
        assert(seq![cur + ws[0]] + ws.drop_first() =~= seq![cur + ws[0]]);
    } else {
        let tail = seq![' '] + join_spec(ws.drop_first());
        assert(join_spec(ws) =~= ws[0] + tail);
        lemma_split_acc_word(ws[0], tail, cur);
        assert(tail[0] == ' ');
        assert(tail.drop_first() =~= join_spec(ws.drop_first()));
        assert(all_space_free(ws.drop_first())) by {
            assert(forall|k: int|
                0 <= k < ws.drop_first().len() ==> ws.drop_first()[k] == ws[k + 1]);
        }
        lemma_split_acc_join(ws.drop_first(), Seq::empty());
        assert(Seq::<char>::empty() + ws.drop_first()[0] =~= ws.drop_first()[0]);
        assert(split_acc(join_spec(ws), cur) =~= seq![cur + ws[0]] + ws.drop_first());
    }
}

/// Splitting a joined sequence of space-free words gives the words back.
pub proof fn lemma_split_join(ws: Seq<Seq<char>>)
    requires
        ws.len() >= 1,
        all_space_free(ws),
    ensures
        split_spec(join_spec(ws)) == ws,
{
    lemma_split_acc_join(ws, Seq::empty());
    assert(Seq::<char>::empty() + ws[0] =~= ws[0]);
    assert(seq![ws[0]] + ws.drop_first() =~= ws);
}

/// Join the words with single spaces.
pub fn join_words(ws: &Vec<String>) -> (r: String)
    ensures
        r@ == join_spec(ws.deep_view()),
{
    let mut r = String::new();
    let mut i: usize = 0;
    while i < ws.len()
        invariant
            i <= ws@.len(),
            ws.deep_view().len() == ws@.len(),
            r@ == join_spec(ws.deep_view().take(i as int)),
        decreases ws@.len() - i,
    {
        proof {
            assert(ws.deep_view().take(i as int + 1)
                =~= ws.deep_view().take(i as int).push(ws.deep_view()[i as int]));
            if i > 0 {
                lemma_join_push(ws.deep_view().take(i as int), ws.deep_view()[i as int]);
            }
            reveal_strlit(" ");
        }
        if i > 0 {
            r.append(" ");
        }
        r.append(ws[i].as_str());
        proof {
            if i == 0 {
                assert(ws.deep_view().take(1)[0] == ws.deep_view()[0]);
                assert(join_spec(ws.deep_view().take(1)) == ws.deep_view()[0]);
                assert(Seq::<char>::empty() + ws.deep_view()[0] =~= ws.deep_view()[0]);
            } else {
                assert(r@ =~= join_spec(ws.deep_view().take(i as int)) + seq![' ']
                    + ws.deep_view()[i as int]);
            }
        }
        i = i + 1;
    }
    proof {
        assert(ws.deep_view().take(ws@.len() as int) =~= ws.deep_view());
    }
    r
}

/// Split a message into its tokens on single spaces.
pub fn split_spaces(s: &str) -> (toks: Vec<String>)
    ensures
        toks.deep_view() == split_spec(s@),
{
    let n = s.unicode_len();
    let mut toks: Vec<String> = Vec::new();
    let mut start: usize = 0;
    let mut i: usize = 0;
    proof {
        assert(s@.skip(0) =~= s@);
        assert(s@.subrange(0, 0) =~= Seq::<char>::empty());
        assert(toks.deep_view() =~= Seq::<Seq<char>>::empty());
        assert(Seq::<Seq<char>>::empty() + split_acc(s@, Seq::empty()) =~= split_spec(s@));
    }
    while i < n
        invariant
            start <= i <= n,
            n == s@.len(),
            space_free(s@.subrange(start as int, i as int)),
            split_spec(s@) == toks.deep_view() + split_acc(
                s@.skip(i as int),
                s@.subrange(start as int, i as int),
            ),
        decreases n - i,
    {
        let ghost cur = s@.subrange(start as int, i as int);
        let ghost old_toks = toks.deep_view();
        proof {
            assert(s@.skip(i as int)[0] == s@[i as int]);
            assert(s@.skip(i as int).drop_first() =~= s@.skip(i as int + 1));
        }
        let c = s.get_char(i);
        if c == ' ' {
            let tok = s.substring_char(start, i).to_owned();
            proof {
                assert(tok@ == cur);
                assert(split_acc(s@.skip(i as int), cur)
                    == seq![cur] + split_acc(s@.skip(i as int + 1), Seq::empty()));
            }
            toks.push(tok);
            start = i + 1;
            proof {
                assert(toks.deep_view() =~= old_toks.push(cur));
                assert(s@.subrange(start as int, i as int + 1) =~= Seq::<char>::empty());
                assert(old_toks.push(cur) + split_acc(s@.skip(i as int + 1), Seq::empty())
                    =~= old_toks + (seq![cur] + split_acc(s@.skip(i as int + 1), Seq::empty())));
            }
        } else {
            proof {
                assert(s@.subrange(start as int, i as int + 1) =~= cur.push(s@[i as int]));
                assert(split_acc(s@.skip(i as int), cur)
                    == split_acc(s@.skip(i as int + 1), cur.push(s@[i as int])));
            }
        }
        i = i + 1;
    }
    let tok = s.substring_char(start, n).to_owned();
    let ghost old_toks = toks.deep_view();
    let ghost cur = s@.subrange(start as int, n as int);
    proof {
        assert(s@.skip(n as int) =~= Seq::<char>::empty());
        assert(split_acc(Seq::<char>::empty(), cur) == seq![cur]);
    }
    toks.push(tok);
    proof {
        assert(toks.deep_view() =~= old_toks.push(cur));
        assert(old_toks.push(cur) =~= old_toks + seq![cur]);
    }
    toks
}

} // verus!
