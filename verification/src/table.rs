//! The daily mapping table: a seeded pseudo-random permutation of catalog
//! indices, partitioned into begin, end and fragment marker ranges and one
//! catalog index per 16-bit value.

use vstd::prelude::*;
use rand::seq::SliceRandom;

verus! {

/// The smallest catalog that can hold the three marker ranges and one word
/// per 16-bit value.
pub const MIN_CATALOG_LEN: usize = 65551;

/// One catalog index per possible 16-bit value.
pub const WORD_RANGE_LEN: usize = 65536;

/// The errors of the armor scheme.
#[derive(Debug, Clone, Copy, PartialEq, Eq, Structural)]
pub enum ArmorError {
    /// The catalog is smaller than the minimum required size.
    InsufficientCatalog,
    /// The character limit cannot accommodate even one word with its markers.
    LimitTooSmall,
    /// A message's marker structure is not a begin or fragment marker, or a
    /// sequence number is missing or cannot be looked up.
    MalformedMessage,
}

/// A calendar date, as plain year, month and day numbers.
#[derive(Debug, Clone, Copy, PartialEq, Eq, Structural)]
pub struct CalDate {
    /// The calendar year.
    pub year: i32,
    /// The month, 1 to 12.
    pub month: u32,
    /// The day of the month, 1 to 31.
    pub day: u32,
}

/// The mappings between 16-bit words and catalog words.
#[derive(Debug)]
pub struct DictMappings {
    /// The corresponding catalog indices for 16-bit words.
    pub words: Vec<u32>,
    /// The catalog indices for the beginning of a message.
    pub begin: Vec<u32>,
    /// The catalog indices for the end of a message.
    pub end: Vec<u32>,
    /// The catalog indices for the start of a message fragment.
    pub fragment: Vec<u32>,
}

/// No two catalog entries are equal.
pub open spec fn catalog_distinct(cat: Seq<Seq<char>>) -> bool {
    forall|i: int, j: int| 0 <= i < j < cat.len() ==> cat[i] != cat[j]
}

/// A catalog fit for the armor scheme: large enough, with unique entries,
/// none of which contains a space.
pub open spec fn catalog_ok(cat: Seq<Seq<char>>) -> bool {
    &&& cat.len() >= MIN_CATALOG_LEN
    &&& catalog_distinct(cat)
    &&& forall|k: int| 0 <= k < cat.len() ==> crate::text::space_free(#[trigger] cat[k])
}

/// The four ranges of a table, laid out as one sequence.
pub open spec fn perm_seq(t: DictMappings) -> Seq<u32> {
    t.begin@ + t.end@ + t.fragment@ + t.words@
}

/// A well-formed table: the ranges have their fixed sizes, all indices are
/// pairwise distinct, and every index points into the catalog.
pub open spec fn table_wf(t: DictMappings, cat_len: int) -> bool {
    &&& t.begin@.len() == 5
    &&& t.end@.len() == 5
    &&& t.fragment@.len() == 5
    &&& t.words@.len() == WORD_RANGE_LEN
    &&& perm_seq(t).no_duplicates()
    &&& forall|i: int| 0 <= i < perm_seq(t).len() ==> (#[trigger] perm_seq(t)[i]) < cat_len
}

/// The identity sequence of catalog indices.
pub open spec fn identity_seq(n: int) -> Seq<u32> {
    Seq::new(n as nat, |i: int| i as u32)
}

/// What the seeded shuffle leaves in the slice: a pure function of the seed
/// material and the input alone.
pub uninterp spec fn shuffle_of(input: Seq<u32>, seed: int, year: int, month: int, day: int) -> Seq<u32>;

/// The permutation a table is built from, for a given secret, date and
/// catalog size.
pub open spec fn table_perm(seed: u128, date: CalDate, n: int) -> Seq<u32> {
    shuffle_of(identity_seq(n), seed as int, date.year as int, date.month as int, date.day as int)
}

/// The table holds the four slices of the permutation for (seed, date, n).
pub open spec fn built_from(t: DictMappings, seed: u128, date: CalDate, n: int) -> bool {
    &&& t.begin@ == table_perm(seed, date, n).subrange(0, 5)
    &&& t.end@ == table_perm(seed, date, n).subrange(5, 10)
    &&& t.fragment@ == table_perm(seed, date, n).subrange(10, 15)
    &&& t.words@ == table_perm(seed, date, n).subrange(15, 15 + WORD_RANGE_LEN as int)
}

/// Relies on rand_seeder::Seeder, rand_pcg::Pcg64 and
/// rand::seq::SliceRandom::shuffle: seeding from the concatenated text of the
/// secret and the date parts is deterministic, and the shuffle rearranges the
/// slice in place, so the outcome is a permutation of the input determined by
/// the arguments alone.
#[verifier::external_body]
fn shuffle_seeded(v: &mut Vec<u32>, seed: u128, year: i32, month: u32, day: u32)
    ensures
        final(v)@ == shuffle_of(old(v)@, seed as int, year as int, month as int, day as int),
        final(v)@.to_multiset() == old(v)@.to_multiset(),
{
    let mut rng: rand_pcg::Pcg64 =
        rand_seeder::Seeder::from(format!("{}{}{}{}", seed, year, month, day)).make_rng();
    v.shuffle(&mut rng);
}

/// Relies on rand::seq::SliceRandom::choose with rand::thread_rng: on a
/// nonempty slice it returns one of the slice's elements.
#[verifier::external_body]
pub(crate) fn choose_index(v: &Vec<u32>) -> (r: u32)
    requires
        v@.len() > 0,
    ensures
        v@.contains(r),
{
    *v.choose(&mut rand::thread_rng()).unwrap()
}

/// A sequence with the multiset of the identity permutation is itself a
/// permutation of the catalog indices: no duplicates, all below the bound.
proof fn lemma_perm_of_identity(s: Seq<u32>, n: int)
    requires
        0 <= n <= u32::MAX,
        s.to_multiset() == identity_seq(n).to_multiset(),
    ensures
        s.len() == n,
        s.no_duplicates(),
        forall|i: int| 0 <= i < s.len() ==> (#[trigger] s[i]) < n,
{
    broadcast use vstd::seq_lib::group_to_multiset_ensures;

    let id = identity_seq(n);
    assert(id.no_duplicates()) by {
        assert(forall|i: int, j: int| 0 <= i < j < n ==> id[i] != id[j]);
    }
    assert(s.len() == n) by {
        assert(s.len() == s.to_multiset().len());
        assert(id.len() == id.to_multiset().len());
    }
    id.lemma_multiset_has_no_duplicates();
    assert(forall|x: u32| s.to_multiset().contains(x) ==> s.to_multiset().count(x) == 1);
    s.lemma_multiset_has_no_duplicates_conv();
    assert forall|i: int| 0 <= i < s.len() implies (#[trigger] s[i]) < n by {
        assert(s.contains(s[i]));
        assert(s.to_multiset().count(s[i]) > 0);
        assert(id.to_multiset().count(s[i]) > 0);
        assert(id.contains(s[i]));
        let j = choose|j: int| 0 <= j < id.len() && id[j] == s[i];
        assert(id[j] == j as u32);
    }
}

/// Copy the half-open index range [from, to) of the permutation.
fn copy_range(perm: &Vec<u32>, from: usize, to: usize) -> (out: Vec<u32>)
    requires
        from <= to <= perm@.len(),
    ensures
        out@ == perm@.subrange(from as int, to as int),
{
    let mut out: Vec<u32> = Vec::new();
    let mut k: usize = from;
    while k < to
        invariant
            from <= k <= to <= perm@.len(),
            out@ == perm@.subrange(from as int, k as int),
        decreases to - k,
    {
        out.push(perm[k]);
        proof {
            assert(out@ =~= perm@.subrange(from as int, k as int + 1));
        }
        k = k + 1;
    }
    out
}

impl DictMappings {
    /// Build the dictionary mappings from a shared secret and a calendar date,
    /// over a catalog of the given size.
    pub fn from_seed(seed: u128, date: &CalDate, catalog: &Vec<String>) -> (r: Result<
        DictMappings,
        ArmorError,
    >)
        requires
            catalog@.len() <= u32::MAX,
        ensures
            catalog@.len() >= MIN_CATALOG_LEN ==> (r matches Ok(t) && built_from(
                t,
                seed,
                *date,
                catalog@.len() as int,
            ) && table_wf(t, catalog@.len() as int)),
            catalog@.len() < MIN_CATALOG_LEN ==> r == Err::<DictMappings, ArmorError>(
                ArmorError::InsufficientCatalog,
            ),
    {
        let n = catalog.len();
        if n < MIN_CATALOG_LEN {
            return Err(ArmorError::InsufficientCatalog);
        }
        let mut perm = identity_indices(n as u32);
        proof {
            assert(perm@ == identity_seq(n as int));
        }
        shuffle_seeded(&mut perm, seed, date.year, date.month, date.day);
        proof {
            lemma_perm_of_identity(perm@, n as int);
        }
        let t = DictMappings {
            begin: copy_range(&perm, 0, 5),
            end: copy_range(&perm, 5, 10),
            fragment: copy_range(&perm, 10, 15),
            words: copy_range(&perm, 15, 15 + WORD_RANGE_LEN),
        };
        proof {
            assert(perm_seq(t) =~= perm@.subrange(0, 15 + WORD_RANGE_LEN as int));
            let p = perm_seq(t);
            assert(p.no_duplicates()) by {
                assert(forall|i: int, j: int|
                    0 <= i < j < p.len() ==> perm@[i] != perm@[j]);
            }
            assert(forall|i: int| 0 <= i < p.len() ==> (#[trigger] p[i]) < n);
        }
        Ok(t)
    }

    /// Look up a 16-bit word given its catalog index: the position of the
    /// first entry of the words range holding that index.
    pub fn reverse_lookup(&self, index: u32) -> (r: Option<u16>)
        requires
            self.words@.len() <= WORD_RANGE_LEN,
        ensures
            r == rev_spec(self.words@, index as int),
    {
        let mut i: usize = 0;
        while i < self.words.len()
            invariant
                i <= self.words@.len() <= WORD_RANGE_LEN,
                forall|j: int| 0 <= j < i ==> (#[trigger] self.words@[j]) != index,
            decreases self.words@.len() - i,
        {
            if self.words[i] == index {
                proof {
                    lemma_rev_found(self.words@, index as int, i as int);
                }
                return Some(i as u16);
            }
            i = i + 1;
        }
        proof {
            lemma_rev_none(self.words@, index as int);
        }
        None
    }
}

/// The identity permutation of catalog indices.
fn identity_indices(n: u32) -> (v: Vec<u32>)
    ensures
        v@ == identity_seq(n as int),
{
    let mut v: Vec<u32> = Vec::new();
    let mut i: u32 = 0;
    while i < n
        invariant
            i <= n,
            v@ =~= identity_seq(i as int),
        decreases n - i,
    {
        v.push(i);
        proof {
            assert(v@ =~= identity_seq(i as int + 1));
        }
        i = i + 1;
    }
    v
}

/// The position of the first entry of the words range equal to the index, as
/// a 16-bit value.
pub open spec fn rev_spec(ws: Seq<u32>, index: int) -> Option<u16>
    decreases ws.len(),
{
    if ws.len() == 0 {
        None
    } else if ws[0] == index {
        Some(0u16)
    } else {
        match rev_spec(ws.drop_first(), index) {
            None => None,
            Some(p) => Some((p + 1) as u16),
        }
    }
}

pub proof fn lemma_rev_none(ws: Seq<u32>, index: int)
    requires
        forall|j: int| 0 <= j < ws.len() ==> (#[trigger] ws[j]) != index,
    ensures
        rev_spec(ws, index) == None::<u16>,
    decreases ws.len(),
{
    if ws.len() > 0 {
        assert(forall|j: int|
            0 <= j < ws.drop_first().len() ==> ws.drop_first()[j] == ws[j + 1]);
        lemma_rev_none(ws.drop_first(), index);
    }
}

pub proof fn lemma_rev_found(ws: Seq<u32>, index: int, p: int)
    requires
        0 <= p < ws.len() <= WORD_RANGE_LEN,
        ws[p] == index,
        forall|j: int| 0 <= j < p ==> (#[trigger] ws[j]) != index,
    ensures
        rev_spec(ws, index) == Some(p as u16),
    decreases p,
{
    if p == 0 {
        assert(ws[0] == index);
    } else {
        assert(ws[0] != index);
        assert(forall|j: int|
            0 <= j < ws.drop_first().len() ==> ws.drop_first()[j] == ws[j + 1]);
        lemma_rev_found(ws.drop_first(), index, p - 1);
    }
}

/// Reverse lookup of a table's own word entry recovers the 16-bit value:
/// for every 16-bit value v, the first words-range position holding
/// words[v] is v itself.
pub proof fn lemma_reverse_lookup_correct(t: DictMappings, cat_len: int, v: u16)
    requires
        table_wf(t, cat_len),
    ensures
        rev_spec(t.words@, t.words@[v as int] as int) == Some(v),
{
    assert(forall|j: int|
        0 <= j < t.words@.len() ==> perm_seq(t)[15 + j] == (#[trigger] t.words@[j]));
    assert forall|j: int| 0 <= j < v as int implies (#[trigger] t.words@[j])
        != t.words@[v as int] by {
        assert(perm_seq(t)[15 + j] != perm_seq(t)[15 + v as int]);
    }
    lemma_rev_found(t.words@, t.words@[v as int] as int, v as int);
}

/// A marker index never resolves through the words range.
pub proof fn lemma_marker_not_word(t: DictMappings, cat_len: int, m: u32)
    requires
        table_wf(t, cat_len),
        t.begin@.contains(m) || t.end@.contains(m) || t.fragment@.contains(m),
    ensures
        rev_spec(t.words@, m as int) == None::<u16>,
{
    let p = perm_seq(t);
    assert forall|j: int| 0 <= j < t.words@.len() implies (#[trigger] t.words@[j]) != m by {
        assert(p[15 + j] == t.words@[j]);
        if t.begin@.contains(m) {
            let k = choose|k: int| 0 <= k < t.begin@.len() && t.begin@[k] == m;
            assert(p[k] == m);
        } else if t.end@.contains(m) {
            let k = choose|k: int| 0 <= k < t.end@.len() && t.end@[k] == m;
            assert(p[5 + k] == m);
        } else {
            let k = choose|k: int| 0 <= k < t.fragment@.len() && t.fragment@[k] == m;
            assert(p[10 + k] == m);
        }
    }
    lemma_rev_none(t.words@, m as int);
}

/// Marker disjointness: the begin, end, fragment and words ranges of a
/// well-formed table are pairwise disjoint, and the words range holds
/// exactly one entry per 16-bit value with no duplicates.
pub proof fn lemma_marker_disjointness(t: DictMappings, cat_len: int)
    requires
        table_wf(t, cat_len),
    ensures
        t.words@.len() == WORD_RANGE_LEN,
        t.words@.no_duplicates(),
        forall|i: int, j: int|
            0 <= i < t.begin@.len() && 0 <= j < t.end@.len() ==> t.begin@[i] != t.end@[j],
        forall|i: int, j: int|
            0 <= i < t.begin@.len() && 0 <= j < t.fragment@.len() ==> t.begin@[i]
                != t.fragment@[j],
        forall|i: int, j: int|
            0 <= i < t.begin@.len() && 0 <= j < t.words@.len() ==> t.begin@[i] != t.words@[j],
        forall|i: int, j: int|
            0 <= i < t.end@.len() && 0 <= j < t.fragment@.len() ==> t.end@[i] != t.fragment@[j],
        forall|i: int, j: int|
            0 <= i < t.end@.len() && 0 <= j < t.words@.len() ==> t.end@[i] != t.words@[j],
        forall|i: int, j: int|
            0 <= i < t.fragment@.len() && 0 <= j < t.words@.len() ==> t.fragment@[i]
                != t.words@[j],
    {
    let p = perm_seq(t);
    assert(forall|i: int| 0 <= i < t.begin@.len() ==> p[i] == (#[trigger] t.begin@[i]));
    assert(forall|i: int| 0 <= i < t.end@.len() ==> p[5 + i] == (#[trigger] t.end@[i]));
    assert(forall|i: int| 0 <= i < t.fragment@.len() ==> p[10 + i] == (#[trigger] t.fragment@[i]));
    assert(forall|i: int| 0 <= i < t.words@.len() ==> p[15 + i] == (#[trigger] t.words@[i]));
}

/// Determinism: two tables built from the same secret, date and catalog size
/// hold identical ranges.
pub proof fn lemma_table_determinism(t1: DictMappings, t2: DictMappings, seed: u128, date: CalDate, n: int)
    requires
        built_from(t1, seed, date, n),
        built_from(t2, seed, date, n),
    ensures
        t1.begin@ == t2.begin@,
        t1.end@ == t2.end@,
        t1.fragment@ == t2.fragment@,
        t1.words@ == t2.words@,
{
}

} // verus!
