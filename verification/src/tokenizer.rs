//! Character-level tokenizer.
//!
//! Every distinct `char` of a training corpus becomes one token. Ids are
//! assigned in increasing code-point order, so the vocabulary depends only
//! on which characters the corpus holds, never on their order.
use vstd::prelude::*;

use crate::code_points::{distinct_code_points, is_code_point_of};

verus! {

/// Why a text or a token sequence could not be converted.
#[derive(Debug, Clone, Copy, PartialEq, Eq, Structural)]
pub enum Error {
    /// The character is not in the vocabulary.
    UnknownChar(char),
    /// The token id is not below the vocabulary size.
    UnknownToken(u32),
}

/// The characters of `s` are in strictly increasing code-point order.
pub open spec fn strictly_increasing(s: Seq<char>) -> bool {
    forall|i: int, j: int| 0 <= i < j < s.len() ==> (s[i] as u32) < (s[j] as u32)
}

/// `v` is the vocabulary of `text`: its distinct characters, each once,
/// in increasing code-point order.
pub open spec fn is_vocabulary_of(v: Seq<char>, text: Seq<char>) -> bool {
    &&& strictly_increasing(v)
    &&& forall|c: char| v.contains(c) <==> text.contains(c)
}

/// Every character of `text` is in the vocabulary `v`.
pub open spec fn all_known(v: Seq<char>, text: Seq<char>) -> bool {
    forall|k: int| 0 <= k < text.len() ==> v.contains(#[trigger] text[k])
}

/// `k` is the position of the first character of `text` that `v` lacks.
pub open spec fn is_first_unknown(v: Seq<char>, text: Seq<char>, k: int) -> bool {
    &&& 0 <= k < text.len()
    &&& !v.contains(text[k])
    &&& forall|j: int| 0 <= j < k ==> v.contains(#[trigger] text[j])
}

/// The id of character `c` in vocabulary `v`: its position there.
pub open spec fn token_of(v: Seq<char>, c: char) -> int {
    v.index_of(c)
}

/// What encoding `text` with vocabulary `v` gives: the id of each character,
/// or the first character that is not in the vocabulary.
pub open spec fn encoding(v: Seq<char>, text: Seq<char>) -> Result<Seq<u32>, Error> {
    if all_known(v, text) {
        Ok(Seq::new(text.len(), |k: int| token_of(v, text[k]) as u32))
    } else {
        Err(Error::UnknownChar(text[choose|k: int| is_first_unknown(v, text, k)]))
    }
}

/// Every id in `ids` is below `n`.
pub open spec fn all_in_range(ids: Seq<u32>, n: nat) -> bool {
    forall|k: int| 0 <= k < ids.len() ==> (#[trigger] ids[k] as nat) < n
}

/// `k` is the position of the first id of `ids` that is not below `n`.
pub open spec fn is_first_out_of_range(ids: Seq<u32>, n: nat, k: int) -> bool {
    &&& 0 <= k < ids.len()
    &&& ids[k] as nat >= n
    &&& forall|j: int| 0 <= j < k ==> (#[trigger] ids[j] as nat) < n
}

/// What decoding `ids` with vocabulary `v` gives: the character of each id,
/// or the first id that is out of range.
pub open spec fn decoding(v: Seq<char>, ids: Seq<u32>) -> Result<Seq<char>, Error> {
    if all_in_range(ids, v.len()) {
        Ok(Seq::new(ids.len(), |k: int| v[ids[k] as int]))
    } else {
        Err(Error::UnknownToken(ids[choose|k: int| is_first_out_of_range(ids, v.len(), k)]))
    }
}

/// The abstract value of an encoding result.
pub open spec fn ids_view(r: Result<Vec<u32>, Error>) -> Result<Seq<u32>, Error> {
    match r {
        Ok(ids) => Ok(ids@),
        Err(e) => Err(e),
    }
}

/// The abstract value of a decoding result.
pub open spec fn text_view(r: Result<String, Error>) -> Result<Seq<char>, Error> {
    match r {
        Ok(s) => Ok(s@),
        Err(e) => Err(e),
    }
}

/// A reversible mapping between text and integer token ids.
///
/// `encode` may fail when the input contains symbols outside the
/// tokenizer's vocabulary; `decode` may fail when a token id is out of
/// range.
pub trait Tokenizer {
    fn encode(&self, text: &str) -> Result<Vec<u32>, Error>;

    fn decode(&self, tokens: &[u32]) -> Result<String, Error>;

    fn vocab_size(&self) -> usize;
}

/// Character-level tokenizer: every unique `char` in the training corpus
/// becomes one token. Ids are assigned by sorted code-point order so the
/// vocabulary is reproducible across runs and machines.
#[derive(Debug)]
pub struct CharTokenizer {
    // Strictly increasing; the index of a character is its token id.
    id_to_char: Vec<char>,
}

impl View for CharTokenizer {
    type V = Seq<char>;

    /// The vocabulary, in id order.
    closed spec fn view(&self) -> Seq<char> {
        self.id_to_char@
    }
}

/// The position of each character in a strictly increasing sequence is at
/// most its code point.
proof fn lemma_position_below_code_point(s: Seq<char>, k: int)
    requires
        strictly_increasing(s),
        0 <= k < s.len(),
    ensures
        k <= s[k] as u32,
    decreases k,
{
    if k > 0 {
        lemma_position_below_code_point(s, k - 1);
    }
}

/// A strictly increasing sequence of characters has at most 0x110000
/// elements, so every position in it fits a `u32`.
proof fn lemma_vocabulary_len_bound(s: Seq<char>)
    requires
        strictly_increasing(s),
    ensures
        s.len() <= 0x110000,
{
    if s.len() > 0 {
        lemma_position_below_code_point(s, s.len() - 1);
        vstd::utf8::char_is_scalar(s[s.len() - 1]);
    }
}

/// In a sequence without repeats, `index_of` finds the one position that
/// holds the character.
proof fn lemma_token_of(v: Seq<char>, c: char, i: int)
    requires
        strictly_increasing(v),
        0 <= i < v.len(),
        v[i] == c,
    ensures
        token_of(v, c) == i,
{
    let j = v.index_of(c);
    assert(0 <= j < v.len() && v[j] == c);
    if j < i {
        assert((v[j] as u32) < (v[i] as u32));
    } else if i < j {
        assert((v[i] as u32) < (v[j] as u32));
    }
}

/// Two strictly increasing sequences that hold the same characters are
/// equal.
proof fn lemma_increasing_unique(a: Seq<char>, b: Seq<char>)
    requires
        strictly_increasing(a),
        strictly_increasing(b),
        forall|c: char| a.contains(c) <==> b.contains(c),
    ensures
        a == b,
    decreases a.len() + b.len(),
{
    if a.len() == 0 {
        if b.len() > 0 {
            assert(b.contains(b[0]));
        }
        assert(a =~= b);
    } else if b.len() == 0 {
        assert(a.contains(a[0]));
    } else {
        // The first elements are both the least element of the common set.
        assert(a.contains(a[0]));
        assert(b.contains(b[0]));
        let ia = choose|i: int| 0 <= i < a.len() && a[i] == b[0];
        let ib = choose|i: int| 0 <= i < b.len() && b[i] == a[0];
        assert(a[0] == b[0]) by {
            if ia > 0 {
                assert((a[0] as u32) < (a[ia] as u32));
            }
            if ib > 0 {
                assert((b[0] as u32) < (b[ib] as u32));
            }
        }
        let ra = a.drop_first();
        let rb = b.drop_first();
        assert forall|c: char| ra.contains(c) <==> rb.contains(c) by {
            if ra.contains(c) {
                let i = choose|i: int| 0 <= i < ra.len() && ra[i] == c;
                assert(a[i + 1] == c);
                assert(c != a[0]);
                assert(b.contains(c));
                let j = choose|j: int| 0 <= j < b.len() && b[j] == c;
                assert(j != 0);
                assert(rb[j - 1] == c);
            }
            if rb.contains(c) {
                let i = choose|i: int| 0 <= i < rb.len() && rb[i] == c;
                assert(b[i + 1] == c);
                assert(c != b[0]);
                assert(a.contains(c));
                let j = choose|j: int| 0 <= j < a.len() && a[j] == c;
                assert(j != 0);
                assert(ra[j - 1] == c);
            }
        }
        lemma_increasing_unique(ra, rb);
        assert(a =~= seq![a[0]] + ra);
        assert(b =~= seq![b[0]] + rb);
    }
}

/// Where the first unknown character of a text stands is unique.
proof fn lemma_first_unknown_unique(v: Seq<char>, text: Seq<char>, k: int)
    requires
        is_first_unknown(v, text, k),
    ensures
        (choose|j: int| is_first_unknown(v, text, j)) == k,
{
    let j = choose|j: int| is_first_unknown(v, text, j);
    assert(is_first_unknown(v, text, j));
    if j < k {
        assert(v.contains(text[j]));
    } else if k < j {
        assert(v.contains(text[k]));
    }
}

/// Where the first out-of-range id of a sequence stands is unique.
proof fn lemma_first_out_of_range_unique(ids: Seq<u32>, n: nat, k: int)
    requires
        is_first_out_of_range(ids, n, k),
    ensures
        (choose|j: int| is_first_out_of_range(ids, n, j)) == k,
{
    let j = choose|j: int| is_first_out_of_range(ids, n, j);
    assert(is_first_out_of_range(ids, n, j));
    if j < k {
        assert((ids[j] as nat) < n);
    } else if k < j {
        assert((ids[k] as nat) < n);
    }
}

/// Encoding gives vocabulary positions: it succeeds exactly when every
/// character of the text is in the vocabulary, and then the id of each
/// character is the position where that character stands in the
/// vocabulary, one id per character; otherwise it reports the first
/// character of the text that the vocabulary lacks.
pub proof fn law_encoding_gives_vocabulary_positions(v: Seq<char>, text: Seq<char>)
    requires
        strictly_increasing(v),
    ensures
        encoding(v, text) is Ok <==> (forall|k: int| 0 <= k < text.len() ==> v.contains(#[trigger] text[k])),
        encoding(v, text) matches Ok(ids) ==> {
            &&& ids.len() == text.len()
            &&& forall|k: int|
                0 <= k < text.len() ==> (#[trigger] ids[k] as int) < v.len() && v[ids[k] as int]
                    == text[k]
        },
        encoding(v, text) matches Err(e) ==> exists|k: int|
            {
                &&& 0 <= k < text.len()
                &&& !v.contains(#[trigger] text[k])
                &&& (forall|j: int| 0 <= j < k ==> v.contains(#[trigger] text[j]))
                &&& e == Error::UnknownChar(text[k])
            },
{
    lemma_vocabulary_len_bound(v);
    if all_known(v, text) {
        let ids = encoding(v, text)->Ok_0;
        assert forall|k: int| 0 <= k < text.len() implies (#[trigger] ids[k] as int) < v.len()
            && v[ids[k] as int] == text[k] by {
            assert(v.contains(text[k]));
            let i = choose|i: int| 0 <= i < v.len() && v[i] == text[k];
            lemma_token_of(v, text[k], i);
        }
    } else {
        let k0 = choose|k: int| 0 <= k < text.len() && !v.contains(#[trigger] text[k]);
        lemma_first_unknown_exists(v, text, k0);
        let k = choose|k: int| is_first_unknown(v, text, k);
        assert(is_first_unknown(v, text, k));
    }
}

/// Some character at or before `k0` is the first one the vocabulary lacks.
proof fn lemma_first_unknown_exists(v: Seq<char>, text: Seq<char>, k0: int)
    requires
        0 <= k0 < text.len(),
        !v.contains(text[k0]),
    ensures
        exists|k: int| is_first_unknown(v, text, k),
    decreases k0,
{
    if forall|j: int| 0 <= j < k0 ==> v.contains(#[trigger] text[j]) {
        assert(is_first_unknown(v, text, k0));
    } else {
        let j = choose|j: int| 0 <= j < k0 && !v.contains(#[trigger] text[j]);
        lemma_first_unknown_exists(v, text, j);
    }
}

/// Some id at or before `k0` is the first one out of range.
proof fn lemma_first_out_of_range_exists(ids: Seq<u32>, n: nat, k0: int)
    requires
        0 <= k0 < ids.len(),
        ids[k0] as nat >= n,
    ensures
        exists|k: int| is_first_out_of_range(ids, n, k),
    decreases k0,
{
    if forall|j: int| 0 <= j < k0 ==> (#[trigger] ids[j] as nat) < n {
        assert(is_first_out_of_range(ids, n, k0));
    } else {
        let j = choose|j: int| 0 <= j < k0 && (#[trigger] ids[j] as nat) >= n;
        lemma_first_out_of_range_exists(ids, n, j);
    }
}

/// Decoding reads ids as vocabulary positions: it succeeds exactly when
/// every id is below the vocabulary size, and then id `i` becomes the
/// character at position `i` of the vocabulary, one character per id;
/// otherwise it reports the first id that is out of range.
pub proof fn law_decoding_reads_vocabulary_positions(v: Seq<char>, ids: Seq<u32>)
    ensures
        decoding(v, ids) is Ok <==> (forall|k: int| 0 <= k < ids.len() ==> (#[trigger] ids[k] as int) < v.len()),
        decoding(v, ids) matches Ok(t) ==> {
            &&& t.len() == ids.len()
            &&& forall|k: int| 0 <= k < ids.len() ==> #[trigger] t[k] == v[ids[k] as int]
        },
        decoding(v, ids) matches Err(e) ==> exists|k: int|
            {
                &&& 0 <= k < ids.len()
                &&& (#[trigger] ids[k] as int) >= v.len()
                &&& (forall|j: int| 0 <= j < k ==> (#[trigger] ids[j] as int) < v.len())
                &&& e == Error::UnknownToken(ids[k])
            },
{
    if !all_in_range(ids, v.len()) {
        let k0 = choose|k: int| 0 <= k < ids.len() && (#[trigger] ids[k] as nat) >= v.len();
        lemma_first_out_of_range_exists(ids, v.len(), k0);
        let k = choose|k: int| is_first_out_of_range(ids, v.len(), k);
        assert(is_first_out_of_range(ids, v.len(), k));
    }
}

/// Ids follow code-point order: of two characters of the vocabulary, the
/// one with the smaller code point has the smaller id.
pub proof fn law_ids_follow_code_point_order(v: Seq<char>, a: char, b: char)
    requires
        strictly_increasing(v),
        v.contains(a),
        v.contains(b),
    ensures
        (a as u32) < (b as u32) <==> token_of(v, a) < token_of(v, b),
        encoding(v, seq![a]) == Ok::<Seq<u32>, Error>(seq![token_of(v, a) as u32]),
{
    let i = choose|i: int| 0 <= i < v.len() && v[i] == a;
    let j = choose|j: int| 0 <= j < v.len() && v[j] == b;
    lemma_token_of(v, a, i);
    lemma_token_of(v, b, j);
    if i < j {
        assert((a as u32) < (b as u32));
    } else if j < i {
        assert((b as u32) < (a as u32));
    }
    assert(all_known(v, seq![a]));
    assert(encoding(v, seq![a])->Ok_0 =~= seq![token_of(v, a) as u32]);
}

/// Decoding undoes encoding: a text whose characters are all in the
/// vocabulary encodes without error, and its ids decode back to the text.
pub proof fn law_decode_inverts_encode(v: Seq<char>, text: Seq<char>)
    requires
        strictly_increasing(v),
        all_known(v, text),
    ensures
        encoding(v, text) is Ok,
        decoding(v, encoding(v, text)->Ok_0) == Ok::<Seq<char>, Error>(text),
{
    lemma_vocabulary_len_bound(v);
    let ids = encoding(v, text)->Ok_0;
    assert forall|k: int| 0 <= k < text.len() implies (token_of(v, text[k]) as u32) as int == token_of(v, text[k])
        && 0 <= token_of(v, text[k]) < v.len() && v[token_of(v, text[k])] == text[k] by {
        assert(v.contains(text[k]));
        let i = choose|i: int| 0 <= i < v.len() && v[i] == text[k];
        lemma_token_of(v, text[k], i);
    }
    assert(all_in_range(ids, v.len()));
    assert(decoding(v, ids)->Ok_0 =~= text);
}

/// Encoding undoes decoding: ids that are all below the vocabulary size
/// decode without error, and the text they decode to encodes back to the
/// same ids.
pub proof fn law_encode_inverts_decode(v: Seq<char>, ids: Seq<u32>)
    requires
        strictly_increasing(v),
        all_in_range(ids, v.len()),
    ensures
        decoding(v, ids) is Ok,
        encoding(v, decoding(v, ids)->Ok_0) == Ok::<Seq<u32>, Error>(ids),
{
    let text = decoding(v, ids)->Ok_0;
    assert forall|k: int| 0 <= k < text.len() implies v.contains(#[trigger] text[k])
        && token_of(v, text[k]) as u32 == ids[k] by {
        assert(text[k] == v[ids[k] as int]);
        lemma_token_of(v, text[k], ids[k] as int);
    }
    assert(encoding(v, text)->Ok_0 =~= ids);
}

/// The vocabulary is determined by which characters a corpus holds: two
/// corpora with the same characters, in whatever order and number, have the
/// same vocabulary, hence the same ids.
pub proof fn law_vocabulary_depends_only_on_chars(
    v1: Seq<char>,
    t1: Seq<char>,
    v2: Seq<char>,
    t2: Seq<char>,
)
    requires
        is_vocabulary_of(v1, t1),
        is_vocabulary_of(v2, t2),
        forall|c: char| t1.contains(c) <==> t2.contains(c),
    ensures
        v1 == v2,
{
    lemma_increasing_unique(v1, v2);
}

/// A tokenizer covers its own corpus: every character of the corpus is in
/// its vocabulary, so the corpus encodes without error and decodes back to
/// itself.
pub proof fn law_vocabulary_covers_corpus(v: Seq<char>, text: Seq<char>)
    requires
        is_vocabulary_of(v, text),
    ensures
        all_known(v, text),
        encoding(v, text) is Ok,
        decoding(v, encoding(v, text)->Ok_0) == Ok::<Seq<char>, Error>(text),
{
    assert forall|k: int| 0 <= k < text.len() implies v.contains(#[trigger] text[k]) by {
        assert(text.contains(text[k]));
    }
    law_decode_inverts_encode(v, text);
}

/// `char::from_u32` from std: the `char` whose code point is `u`, or `None`
/// when no `char` has that code point (a surrogate, or a value above
/// 0x10FFFF).
#[verifier::external_body]
fn char_from_code_point(u: u32) -> (r: Option<char>)
    ensures
        (r is Some) == vstd::utf8::is_scalar(u),
        r matches Some(c) ==> c as u32 == u,
{
    char::from_u32(u)
}

/// `String::push` from std: appends the character to the end of the string.
#[verifier::external_body]
fn push_char(s: &mut String, c: char)
    ensures
        final(s)@ == old(s)@.push(c),
{
    s.push(c);
}

impl CharTokenizer {
    #[verifier::type_invariant]
    spec fn ids_are_sorted(self) -> bool {
        strictly_increasing(self.id_to_char@)
    }

    /// Position of `c` in the strictly increasing `v`, or where it would be
    /// inserted to keep `v` increasing.
    fn search(v: &Vec<char>, c: char) -> (r: Result<usize, usize>)
        requires
            strictly_increasing(v@),
        ensures
            match r {
                Ok(i) => i < v@.len() && v@[i as int] == c,
                Err(i) => {
                    &&& i <= v@.len()
                    &&& forall|j: int| 0 <= j < i ==> (#[trigger] v@[j] as u32) < (c as u32)
                    &&& forall|j: int| i <= j < v@.len() ==> (c as u32) < (#[trigger] v@[j] as u32)
                },
            },
    {
        let key = c as u32;
        let mut lo: usize = 0;
        let mut hi: usize = v.len();
        while lo < hi
            invariant
                lo <= hi <= v@.len(),
                strictly_increasing(v@),
                key == c as u32,
                forall|j: int| 0 <= j < lo ==> (#[trigger] v@[j] as u32) < key,
                forall|j: int| hi <= j < v@.len() ==> key < (#[trigger] v@[j] as u32),
            decreases hi - lo,
        {
            let mid = lo + (hi - lo) / 2;
            let m = v[mid] as u32;
            if m == key {
                proof {
                    vstd::utf8::char_u32_cast(v@[mid as int], m);
                    vstd::utf8::char_u32_cast(c, key);
                }
                return Ok(mid);
            } else if m < key {
                lo = mid + 1;
            } else {
                hi = mid;
            }
        }
        Err(lo)
    }

    /// Build a tokenizer from a corpus.
    pub fn from_text(text: &str) -> (tok: Self)
        ensures
            is_vocabulary_of(tok@, text@),
            tok@.len() == text@.to_set().len(),
    {
        let codes = distinct_code_points(text);
        let mut v: Vec<char> = Vec::new();
        for i in 0..codes.len()
            invariant
                forall|a: int, b: int| 0 <= a < b < codes@.len() ==> codes@[a] < codes@[b],
                forall|x: u32| codes@.contains(x) <==> is_code_point_of(x, text@),
                v@.len() == i,
                forall|m: int| 0 <= m < i ==> (#[trigger] v@[m]) as u32 == codes@[m],
        {
            let code = codes[i];
            proof {
                assert(codes@.contains(code));
                let k = choose|k: int| 0 <= k < text@.len() && #[trigger] text@[k] as u32 == code;
                vstd::utf8::char_is_scalar(text@[k]);
            }
            match char_from_code_point(code) {
                Some(c) => {
                    v.push(c);
                },
                None => {},
            }
        }
        proof {
            assert forall|a: int, b: int| 0 <= a < b < v@.len() implies (v@[a] as u32) < (
            v@[b] as u32) by {
                assert(v@[a] as u32 == codes@[a]);
                assert(v@[b] as u32 == codes@[b]);
            }
            assert forall|ch: char| v@.contains(ch) <==> text@.contains(ch) by {
                if v@.contains(ch) {
                    let m = choose|m: int| 0 <= m < v@.len() && v@[m] == ch;
                    assert(v@[m] as u32 == codes@[m]);
                    assert(codes@.contains(codes@[m]));
                    let k = choose|k: int|
                        0 <= k < text@.len() && #[trigger] text@[k] as u32 == codes@[m];
                    vstd::utf8::char_u32_cast(text@[k], codes@[m]);
                    vstd::utf8::char_u32_cast(ch, codes@[m]);
                    assert(text@[k] == ch);
                }
                if text@.contains(ch) {
                    let k = choose|k: int| 0 <= k < text@.len() && text@[k] == ch;
                    assert(text@[k] as u32 == ch as u32);
                    assert(is_code_point_of(ch as u32, text@));
                    assert(codes@.contains(ch as u32));
                    let m = choose|m: int| 0 <= m < codes@.len() && codes@[m] == ch as u32;
                    assert(v@[m] as u32 == codes@[m]);
                    vstd::utf8::char_u32_cast(v@[m], codes@[m]);
                    vstd::utf8::char_u32_cast(ch, codes@[m]);
                    assert(v@[m] == ch);
                }
            }
            assert(v@.no_duplicates()) by {
                assert forall|a: int, b: int|
                    0 <= a < v@.len() && 0 <= b < v@.len() && a != b implies v@[a] != v@[b] by {
                    if a < b {
                        assert((v@[a] as u32) < (v@[b] as u32));
                    } else {
                        assert((v@[b] as u32) < (v@[a] as u32));
                    }
                }
            }
            v@.unique_seq_to_set();
            assert(v@.to_set() =~= text@.to_set());
        }
        CharTokenizer { id_to_char: v }
    }

    /// The id of `c`, or `None` when `c` is not in the vocabulary.
    fn lookup(&self, c: char) -> (r: Option<u32>)
        ensures
            r == (if self@.contains(c) {
                Some(token_of(self@, c) as u32)
            } else {
                None::<u32>
            }),
    {
        proof {
            use_type_invariant(self);
            lemma_vocabulary_len_bound(self@);
        }
        match Self::search(&self.id_to_char, c) {
            Ok(i) => {
                proof {
                    lemma_token_of(self@, c, i as int);
                }
                Some(i as u32)
            },
            Err(i) => {
                proof {
                    if self@.contains(c) {
                        let j = choose|j: int| 0 <= j < self@.len() && self@[j] == c;
                        if j < i {
                            assert((self@[j] as u32) < (c as u32));
                        } else {
                            assert((c as u32) < (self@[j] as u32));
                        }
                    }
                }
                None
            },
        }
    }
}

impl Clone for CharTokenizer {
    fn clone(&self) -> (r: Self)
        ensures
            r@ == self@,
    {
        proof {
            use_type_invariant(self);
        }
        let ids = self.id_to_char.clone();
        assert(ids@ =~= self.id_to_char@);
        CharTokenizer { id_to_char: ids }
    }
}

impl Tokenizer for CharTokenizer {
    fn encode(&self, text: &str) -> (r: Result<Vec<u32>, Error>)
        ensures
            ids_view(r) == encoding(self@, text@),
            r matches Ok(ids) ==> {
                &&& ids@.len() == text@.len()
                &&& forall|k: int|
                    0 <= k < text@.len() ==> (#[trigger] ids@[k] as int) < self@.len()
                        && self@[ids@[k] as int] == text@[k]
            },
            r is Ok <==> (forall|k: int| 0 <= k < text@.len() ==> self@.contains(#[trigger] text@[k])),
            r matches Err(e) ==> exists|k: int|
                {
                    &&& 0 <= k < text@.len()
                    &&& !self@.contains(#[trigger] text@[k])
                    &&& (forall|j: int| 0 <= j < k ==> self@.contains(#[trigger] text@[j]))
                    &&& e == Error::UnknownChar(text@[k])
                },
    {
        proof {
            use_type_invariant(self);
            law_encoding_gives_vocabulary_positions(self@, text@);
        }
        let mut ids: Vec<u32> = Vec::new();
        for c in it: text.chars()
            invariant
                it.seq() == text@,
                ids@ == Seq::new(
                    it.index() as nat,
                    |k: int| token_of(self@, text@[k]) as u32,
                ),
                forall|k: int| 0 <= k < it.index() ==> self@.contains(#[trigger] text@[k]),
        {
            let ghost k = it.index() as int;
            assert(text@[k] == c);
            match self.lookup(c) {
                Some(id) => {
                    ids.push(id);
                    assert(ids@ =~= Seq::new(
                        (k + 1) as nat,
                        |m: int| token_of(self@, text@[m]) as u32,
                    ));
                },
                None => {
                    proof {
                        assert(is_first_unknown(self@, text@, k));
                        lemma_first_unknown_unique(self@, text@, k);
                    }
                    return Err(Error::UnknownChar(c));
                },
            }
        }
        Ok(ids)
    }

    fn decode(&self, tokens: &[u32]) -> (r: Result<String, Error>)
        ensures
            text_view(r) == decoding(self@, tokens@),
            r matches Ok(t) ==> {
                &&& t@.len() == tokens@.len()
                &&& forall|k: int| 0 <= k < tokens@.len() ==> #[trigger] t@[k] == self@[tokens@[k] as int]
            },
            r is Ok <==> (forall|k: int| 0 <= k < tokens@.len() ==> (#[trigger] tokens@[k] as int) < self@.len()),
            r matches Err(e) ==> exists|k: int|
                {
                    &&& 0 <= k < tokens@.len()
                    &&& (#[trigger] tokens@[k] as int) >= self@.len()
                    &&& (forall|j: int| 0 <= j < k ==> (#[trigger] tokens@[j] as int) < self@.len())
                    &&& e == Error::UnknownToken(tokens@[k])
                },
    {
        proof {
            law_decoding_reads_vocabulary_positions(self@, tokens@);
        }
        let mut out = String::new();
        let n = self.id_to_char.len();
        for i in 0..tokens.len()
            invariant
                n == self@.len(),
                out@ == Seq::new(i as nat, |k: int| self@[tokens@[k] as int]),
                forall|k: int| 0 <= k < i ==> (#[trigger] tokens@[k] as nat) < self@.len(),
        {
            let id = tokens[i];
            if (id as usize) < n {
                let c = self.id_to_char[id as usize];
                push_char(&mut out, c);
                assert(out@ =~= Seq::new((i + 1) as nat, |k: int| self@[tokens@[k] as int]));
            } else {
                proof {
                    assert(is_first_out_of_range(tokens@, self@.len(), i as int));
                    lemma_first_out_of_range_unique(tokens@, self@.len(), i as int);
                }
                return Err(Error::UnknownToken(id));
            }
        }
        Ok(out)
    }

    fn vocab_size(&self) -> (n: usize)
        ensures
            n == self@.len(),
    {
        self.id_to_char.len()
    }
}

} // verus!
