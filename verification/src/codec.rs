//! Conversion between byte streams and the 16-bit words that the armor
//! scheme encodes: consecutive byte pairs form big-endian 16-bit values, and
//! an odd-length input is padded with a trailing zero byte.

use vstd::prelude::*;

verus! {

/// The input bytes, with a zero byte appended when the length is odd.
pub open spec fn padded(d: Seq<u8>) -> Seq<u8> {
    if d.len() % 2 == 1 {
        d.push(0u8)
    } else {
        d
    }
}

/// How many 16-bit words the input encodes to.
pub open spec fn num_words(d: Seq<u8>) -> int {
    (d.len() as int + 1) / 2
}

/// The big-endian 16-bit value of a byte pair.
pub open spec fn word_of_pair(hi: u8, lo: u8) -> u16 {
    (hi * 256 + lo) as u16
}

/// The sequence of 16-bit words that the input encodes to.
pub open spec fn bytes_to_words(d: Seq<u8>) -> Seq<u16> {
    Seq::new(num_words(d) as nat, |i: int| word_of_pair(padded(d)[2 * i], padded(d)[2 * i + 1]))
}

/// The two bytes of a 16-bit word, high byte first.
pub open spec fn word_bytes(w: u16) -> Seq<u8> {
    seq![(w / 256) as u8, (w % 256) as u8]
}

/// The byte stream recovered from a sequence of 16-bit words.
pub open spec fn words_to_bytes(ws: Seq<u16>) -> Seq<u8>
    decreases ws.len(),
{
    if ws.len() == 0 {
        Seq::empty()
    } else {
        word_bytes(ws[0]) + words_to_bytes(ws.drop_first())
    }
}

pub proof fn lemma_words_to_bytes_push(ws: Seq<u16>, w: u16)
    ensures
        words_to_bytes(ws.push(w)) == words_to_bytes(ws) + word_bytes(w),
    decreases ws.len(),
{
    if ws.len() == 0 {
        assert(ws.push(w).drop_first() =~= Seq::<u16>::empty());
        assert(words_to_bytes(Seq::<u16>::empty()) == Seq::<u8>::empty());
        assert(words_to_bytes(ws.push(w)) =~= words_to_bytes(ws) + word_bytes(w));
    } else {
        assert(ws.push(w).drop_first() =~= ws.drop_first().push(w));
        lemma_words_to_bytes_push(ws.drop_first(), w);
        assert(words_to_bytes(ws.push(w)) =~= words_to_bytes(ws) + word_bytes(w));
    }
}

/// Decoding the words of a byte stream gives back the stream, padded to even
/// length.
pub proof fn lemma_codec_round_trip(d: Seq<u8>)
    ensures
        words_to_bytes(bytes_to_words(d)) == padded(d),
    decreases d.len(),
{
    if d.len() == 0 {
        assert(bytes_to_words(d) =~= Seq::<u16>::empty());
        assert(words_to_bytes(bytes_to_words(d)) =~= padded(d));
    } else if d.len() == 1 {
        let w = word_of_pair(d[0], 0u8);
        assert(bytes_to_words(d) =~= seq![w]);
        assert(bytes_to_words(d).drop_first() =~= Seq::<u16>::empty());
        assert(words_to_bytes(Seq::<u16>::empty()) == Seq::<u8>::empty());
        lemma_word_bytes_of_pair(d[0], 0u8);
        assert(words_to_bytes(bytes_to_words(d)) =~= padded(d));
    } else {
        let rest = d.skip(2);
        assert(padded(rest) =~= padded(d).skip(2));
        assert(bytes_to_words(d).drop_first() =~= bytes_to_words(rest)) by {
            assert forall|i: int| 0 <= i < num_words(rest) implies bytes_to_words(d).drop_first()[i]
                == bytes_to_words(rest)[i] by {
                assert(padded(d)[2 * (i + 1)] == padded(rest)[2 * i]);
                assert(padded(d)[2 * (i + 1) + 1] == padded(rest)[2 * i + 1]);
            }
        }
        lemma_codec_round_trip(rest);
        lemma_word_bytes_of_pair(d[0], d[1]);
        assert(bytes_to_words(d)[0] == word_of_pair(d[0], d[1]));
        assert(words_to_bytes(bytes_to_words(d)) =~= padded(d));
    }
}

pub proof fn lemma_word_bytes_of_pair(hi: u8, lo: u8)
    ensures
        word_bytes(word_of_pair(hi, lo)) =~= seq![hi, lo],
{
    let w = word_of_pair(hi, lo);
    assert(w == hi * 256 + lo);
    vstd::arithmetic::div_mod::lemma_fundamental_div_mod_converse(
        w as int,
        256,
        hi as int,
        lo as int,
    );
}

/// Group the bytes into big-endian 16-bit words, padding an odd-length input
/// with a zero low byte.
pub fn encode_words(data: &Vec<u8>) -> (ws: Vec<u16>)
    ensures
        ws@ == bytes_to_words(data@),
{
    let n = data.len();
    let mut ws: Vec<u16> = Vec::new();
    let mut i: usize = 0;
    while i < n
        invariant
            i <= n,
            n == data@.len(),
            2 * ws@.len() == i || (2 * ws@.len() == i + 1 && i == n && n % 2 == 1),
            ws@ =~= bytes_to_words(data@).take(ws@.len() as int),
        decreases n - i,
    {
        let hi = data[i];
        let lo = if i + 1 < n {
            data[i + 1]
        } else {
            0u8
        };
        let w: u16 = (hi as u16) * 256 + (lo as u16);
        proof {
            let k = ws@.len() as int;
            assert(2 * k == i);
            assert(padded(data@)[2 * k] == hi);
            assert(padded(data@)[2 * k + 1] == lo);
            assert(w == word_of_pair(hi, lo));
            assert(ws@.push(w) =~= bytes_to_words(data@).take(k + 1));
        }
        ws.push(w);
        if i + 1 < n {
            i = i + 2;
        } else {
            i = n;
        }
    }
    proof {
        assert(ws@.len() == num_words(data@));
        assert(ws@ =~= bytes_to_words(data@));
    }
    ws
}

/// Flatten 16-bit words back into bytes, high byte first.
pub fn decode_bytes(ws: &Vec<u16>) -> (bs: Vec<u8>)
    ensures
        bs@ == words_to_bytes(ws@),
{
    let mut bs: Vec<u8> = Vec::new();
    let mut i: usize = 0;
    while i < ws.len()
        invariant
            i <= ws@.len(),
            bs@ == words_to_bytes(ws@.take(i as int)),
        decreases ws@.len() - i,
    {
        let w = ws[i];
        proof {
            lemma_words_to_bytes_push(ws@.take(i as int), w);
            assert(ws@.take(i as int).push(w) =~= ws@.take(i as int + 1));
        }
        bs.push((w / 256) as u8);
        bs.push((w % 256) as u8);
        proof {
            assert(bs@ =~= words_to_bytes(ws@.take(i as int)) + word_bytes(w));
        }
        i = i + 1;
    }
    proof {
        assert(ws@.take(ws@.len() as int) =~= ws@);
    }
    bs
}

} // verus!
