//! The TinyShakespeare corpus as a line dataset.
//!
//! Each item is one newline-delimited line of the source text; the full
//! corpus stays available through [`TinyShakespeare::text`] for downstream
//! tokenization and windowing.
use vstd::prelude::*;
use vstd::string::StringSliceAdditionalSpecFns;
use vstd::utf8::*;

use crate::tokenizer::{decoding, encoding, is_vocabulary_of, law_decode_inverts_encode, Error};

verus! {

broadcast use vstd::string::group_string_axioms;

/// The text of `s` cut at every '\n': one more piece than there are
/// newlines, the newlines themselves left out.
pub open spec fn pieces(s: Seq<char>) -> Seq<Seq<char>>
    decreases s.len(),
{
    if s.len() == 0 {
        seq![Seq::<char>::empty()]
    } else {
        let p = pieces(s.drop_last());
        if s.last() == '\n' {
            p.push(Seq::<char>::empty())
        } else {
            p.update(p.len() - 1, p[p.len() - 1].push(s.last()))
        }
    }
}

/// The lines of `s`: the pieces between newlines, where a newline at the
/// very end closes the last line instead of opening an empty one.
pub open spec fn lines(s: Seq<char>) -> Seq<Seq<char>> {
    let p = pieces(s);
    if p[p.len() - 1].len() == 0 {
        p.drop_last()
    } else {
        p
    }
}

/// Number of bytes of the UTF-8 encoding of the first `k` characters of `s`.
pub open spec fn byte_offset(s: Seq<char>, k: int) -> int {
    encode_utf8(s.take(k)).len() as int
}

/// There is always at least one piece.
proof fn lemma_pieces_nonempty(s: Seq<char>)
    ensures
        pieces(s).len() >= 1,
    decreases s.len(),
{
    if s.len() > 0 {
        lemma_pieces_nonempty(s.drop_last());
    }
}

/// UTF-8 encoding distributes over concatenation.
proof fn lemma_encode_concat(a: Seq<char>, b: Seq<char>)
    ensures
        encode_utf8(a + b) == encode_utf8(a) + encode_utf8(b),
    decreases a.len(),
{
    if a.len() == 0 {
        assert(a + b =~= b);
        assert(encode_utf8(a) + encode_utf8(b) =~= encode_utf8(b));
    } else {
        lemma_encode_concat(a.drop_first(), b);
        assert((a + b).drop_first() =~= a.drop_first() + b);
        assert((a + b)[0] == a[0]);
        assert(encode_utf8(a + b) =~= encode_utf8(a) + encode_utf8(b));
    }
}

/// Where the encoding of a prefix ends is a character boundary.
proof fn lemma_prefix_is_char_boundary(a: Seq<char>, b: Seq<char>)
    ensures
        is_char_boundary(encode_utf8(a + b), encode_utf8(a).len() as int),
    decreases a.len(),
{
    encode_utf8_valid_utf8(a + b);
    if a.len() == 0 {
    } else {
        let ab = a + b;
        let bytes = encode_utf8(ab);
        encode_utf8_first_scalar(ab);
        assert(ab.drop_first() =~= a.drop_first() + b);
        assert(ab[0] == a[0]);
        assert(pop_first_scalar(bytes) =~= encode_utf8(ab.drop_first()));
        lemma_prefix_is_char_boundary(a.drop_first(), b);
        lemma_encode_concat(a, b);
        encode_utf8_valid_utf8(ab.drop_first());
    }
}

/// The encoding determines the characters.
proof fn lemma_encode_injective(x: Seq<char>, y: Seq<char>)
    requires
        encode_utf8(x) == encode_utf8(y),
    ensures
        x == y,
{
    encode_utf8_decode_utf8(x);
    encode_utf8_decode_utf8(y);
}

/// Splitting `s` after its first `k` characters: the byte offset is a
/// character boundary, and the bytes after it encode the rest of `s`.
proof fn lemma_split_after(s: Seq<char>, k: int)
    requires
        0 <= k <= s.len(),
    ensures
        is_char_boundary(encode_utf8(s), byte_offset(s, k)),
        encode_utf8(s).subrange(byte_offset(s, k), encode_utf8(s).len() as int) == encode_utf8(
            s.skip(k),
        ),
        byte_offset(s, k) <= encode_utf8(s).len(),
{
    assert(s =~= s.take(k) + s.skip(k));
    lemma_prefix_is_char_boundary(s.take(k), s.skip(k));
    lemma_encode_concat(s.take(k), s.skip(k));
    assert(encode_utf8(s).subrange(byte_offset(s, k), encode_utf8(s).len() as int) =~= encode_utf8(
        s.skip(k),
    ));
}

/// The bytes between two byte offsets encode the characters between them.
proof fn lemma_offsets_between(s: Seq<char>, a: int, b: int)
    requires
        0 <= a <= b <= s.len(),
    ensures
        byte_offset(s, a) <= byte_offset(s, b),
        byte_offset(s, b) - byte_offset(s, a) == encode_utf8(s.subrange(a, b)).len(),
{
    assert(s.take(b) =~= s.take(a) + s.subrange(a, b));
    lemma_encode_concat(s.take(a), s.subrange(a, b));
}

/// The byte offset of one more character grows by that character's width.
proof fn lemma_offset_step(s: Seq<char>, k: int)
    requires
        0 <= k < s.len(),
    ensures
        byte_offset(s, k + 1) == byte_offset(s, k) + encode_scalar(s[k] as u32).len(),
        byte_offset(s, k + 1) <= encode_utf8(s).len(),
{
    assert(s.take(k + 1) =~= s.take(k) + seq![s[k]]);
    lemma_encode_concat(s.take(k), seq![s[k]]);
    assert(seq![s[k]].drop_first() =~= Seq::<char>::empty());
    assert(encode_utf8(seq![s[k]]) =~= encode_scalar(s[k] as u32)) by {
        reveal_with_fuel(encode_utf8, 2);
    }
    lemma_split_after(s, k + 1);
}

/// The pieces of a text joined back together, with a '\n' between each two.
pub open spec fn join_lines(p: Seq<Seq<char>>) -> Seq<char>
    decreases p.len(),
{
    if p.len() == 0 {
        Seq::<char>::empty()
    } else if p.len() == 1 {
        p[0]
    } else {
        join_lines(p.drop_last()) + seq!['\n'] + p[p.len() - 1]
    }
}

/// Joining the pieces with newlines gives back the text.
proof fn lemma_pieces_rejoin(s: Seq<char>)
    ensures
        join_lines(pieces(s)) == s,
    decreases s.len(),
{
    lemma_pieces_nonempty(s);
    if s.len() > 0 {
        let s0 = s.drop_last();
        let p = pieces(s0);
        lemma_pieces_rejoin(s0);
        lemma_pieces_nonempty(s0);
        let c = s.last();
        assert(s =~= s0.push(c));
        if c == '\n' {
            assert(p.push(Seq::<char>::empty()).drop_last() =~= p);
            assert(join_lines(p.push(Seq::<char>::empty())) =~= s);
        } else {
            let q = p.update(p.len() - 1, p[p.len() - 1].push(c));
            if p.len() == 1 {
                assert(join_lines(q) =~= s);
            } else {
                assert(q.drop_last() =~= p.drop_last());
                assert(join_lines(q) =~= s);
            }
        }
    }
}

/// Each item is one line of the text: the lines joined with newlines give
/// back the whole text, but for a newline at its very end.
pub proof fn law_lines_rejoin_to_text(s: Seq<char>)
    ensures
        s == (if s.len() > 0 && s.last() == '\n' {
            join_lines(lines(s)) + seq!['\n']
        } else {
            join_lines(lines(s))
        }),
{
    lemma_pieces_rejoin(s);
    lemma_pieces_nonempty(s);
    let p = pieces(s);
    if p[p.len() - 1].len() == 0 {
        if s.len() > 0 && s.last() == '\n' {
            lemma_pieces_nonempty(s.drop_last());
            assert(p.len() >= 2);
            assert(join_lines(p) == join_lines(p.drop_last()) + seq!['\n'] + p[p.len() - 1]);
            assert(join_lines(p) =~= join_lines(lines(s)) + seq!['\n']);
        } else if s.len() > 0 {
            lemma_pieces_nonempty(s.drop_last());
            let p0 = pieces(s.drop_last());
            assert(p[p.len() - 1] == p0[p0.len() - 1].push(s.last()));
        } else {
            assert(lines(s) =~= Seq::<Seq<char>>::empty());
        }
    } else {
        if s.len() > 0 && s.last() == '\n' {
            assert(p[p.len() - 1] == Seq::<char>::empty());
        }
    }
}

/// Every piece of a text is free of newlines and made of the text's
/// characters.
proof fn lemma_pieces_chars(s: Seq<char>)
    ensures
        forall|i: int, k: int|
            0 <= i < pieces(s).len() && 0 <= k < pieces(s)[i].len() ==> #[trigger] pieces(s)[i][k]
                != '\n' && s.contains(pieces(s)[i][k]),
    decreases s.len(),
{
    lemma_pieces_nonempty(s);
    if s.len() > 0 {
        let s0 = s.drop_last();
        lemma_pieces_chars(s0);
        lemma_pieces_nonempty(s0);
        let p = pieces(s0);
        assert forall|i: int, k: int|
            0 <= i < pieces(s).len() && 0 <= k < pieces(s)[i].len() implies #[trigger] pieces(s)[i][k]
                != '\n' && s.contains(pieces(s)[i][k]) by {
            let x = pieces(s)[i][k];
            if s.last() == '\n' {
                assert(i < p.len());
                assert(x == p[i][k]);
            } else if i < p.len() - 1 || k < p[i].len() {
                assert(x == p[i][k]);
            } else {
                assert(x == s.last());
            }
            if x != s.last() {
                assert(s0.contains(x));
                let j = choose|j: int| 0 <= j < s0.len() && s0[j] == x;
                assert(s[j] == x);
            } else {
                assert(s[s.len() - 1] == x);
            }
        }
    }
}

/// No line contains a newline, and every character of a line comes from the
/// text.
pub proof fn law_lines_hold_no_newline(s: Seq<char>, i: int, k: int)
    requires
        0 <= i < lines(s).len(),
        0 <= k < lines(s)[i].len(),
    ensures
        lines(s)[i][k] != '\n',
        s.contains(lines(s)[i][k]),
{
    lemma_pieces_chars(s);
    lemma_pieces_nonempty(s);
    assert(lines(s)[i] == pieces(s)[i]);
}

/// Every line of a corpus round-trips through a tokenizer built from that
/// corpus: it encodes without error and decodes back to itself.
pub proof fn law_every_line_round_trips(v: Seq<char>, s: Seq<char>, i: int)
    requires
        is_vocabulary_of(v, s),
        0 <= i < lines(s).len(),
    ensures
        encoding(v, lines(s)[i]) is Ok,
        decoding(v, encoding(v, lines(s)[i])->Ok_0) == Ok::<Seq<char>, Error>(lines(s)[i]),
{
    let line = lines(s)[i];
    assert forall|k: int| 0 <= k < line.len() implies v.contains(#[trigger] line[k]) by {
        law_lines_hold_no_newline(s, i, k);
    }
    law_decode_inverts_encode(v, line);
}

/// Number of bytes that `c` takes in UTF-8.
fn utf8_width(c: char) -> (n: usize)
    ensures
        n == encode_scalar(c as u32).len(),
{
    proof {
        char_is_scalar(c);
    }
    let v = c as u32;
    if v <= 0x7F {
        1
    } else if v <= 0x7FF {
        2
    } else if v <= 0xFFFF {
        3
    } else {
        4
    }
}

/// The TinyShakespeare corpus, cut into lines.
pub struct TinyShakespeare {
    text: String,
    /// Byte range of each line in `text`.
    line_offsets: Vec<(usize, usize)>,
    /// Character range of each line in `text`.
    spans: Ghost<Seq<(int, int)>>,
}

impl View for TinyShakespeare {
    type V = Seq<char>;

    /// The full corpus text.
    closed spec fn view(&self) -> Seq<char> {
        self.text@
    }
}

/// `spans` stand where the lines of `s` stand: the first begins at 0, each
/// next one right after the newline that ends the one before, each ends at
/// a newline or at the end of the text, and the last ends at the end of the
/// text, or just before a final newline.
pub open spec fn spans_at_line_positions(s: Seq<char>, spans: Seq<(int, int)>) -> bool {
    &&& spans.len() > 0 ==> spans[0].0 == 0
    &&& forall|i: int, j: int|
        0 <= i && j == i + 1 && j < spans.len() ==> (#[trigger] spans[j]).0 == (
        #[trigger] spans[i]).1 + 1
    &&& forall|i: int|
        0 <= i < spans.len() && (#[trigger] spans[i]).1 < s.len() ==> s[spans[i].1] == '\n'
    &&& spans.len() > 0 ==> spans[spans.len() - 1].1 == (if s[s.len() - 1] == '\n' {
        s.len() - 1
    } else {
        s.len() as int
    })
}

/// `spans` are the character ranges of the lines of `s`, at the lines'
/// positions, and `offsets` the same ranges in bytes.
pub open spec fn offsets_locate_lines(
    s: Seq<char>,
    spans: Seq<(int, int)>,
    offsets: Seq<(usize, usize)>,
) -> bool {
    &&& spans_at_line_positions(s, spans)
    &&& spans.len() == offsets.len()
    &&& lines(s).len() == spans.len()
    &&& forall|i: int|
        0 <= i < spans.len() ==> {
            &&& 0 <= (#[trigger] spans[i]).0 <= spans[i].1 <= s.len()
            &&& lines(s)[i] == s.subrange(spans[i].0, spans[i].1)
            &&& offsets[i].0 == byte_offset(s, spans[i].0)
            &&& offsets[i].1 == byte_offset(s, spans[i].1)
        }
}

impl TinyShakespeare {
    #[verifier::type_invariant]
    spec fn offsets_match_lines(self) -> bool {
        offsets_locate_lines(self.text@, self.spans@, self.line_offsets@)
    }

    /// Build the dataset from an in-memory corpus.
    pub fn from_text(text: String) -> (ds: Self)
        ensures
            ds@ == text@,
    {
        let (line_offsets, spans) = build_line_offsets(text.as_str());
        TinyShakespeare { text, line_offsets, spans }
    }

    /// Raw corpus text, useful for downstream tokenizer training / windowing.
    pub fn text(&self) -> (t: &str)
        ensures
            t@ == self@,
    {
        self.text.as_str()
    }

    /// Number of lines.
    pub fn len(&self) -> (n: usize)
        ensures
            n == lines(self@).len(),
    {
        proof {
            use_type_invariant(self);
        }
        self.line_offsets.len()
    }

    /// The line at `index`, or `None` past the last line.
    pub fn get(&self, index: usize) -> (line: Option<String>)
        ensures
            match line {
                Some(l) => index < lines(self@).len() && l@ == lines(self@)[index as int],
                None => index >= lines(self@).len(),
            },
    {
        proof {
            use_type_invariant(self);
        }
        if index >= self.line_offsets.len() {
            return None;
        }
        let (start, end) = self.line_offsets[index];
        let ghost s = self.text@;
        let ghost a = self.spans@[index as int].0;
        let ghost b = self.spans@[index as int].1;
        let whole = self.text.as_str();
        proof {
            lemma_split_after(s, a);
            lemma_offsets_between(s, a, b);
        }
        let (_, rest) = whole.split_at(start);
        proof {
            lemma_encode_injective(rest@, s.skip(a));
            lemma_split_after(s.skip(a), b - a);
            assert(s.skip(a).take(b - a) =~= s.subrange(a, b));
        }
        let (piece, _) = rest.split_at(end - start);
        proof {
            let t = s.skip(a);
            assert(t =~= t.take(b - a) + t.skip(b - a));
            lemma_encode_concat(t.take(b - a), t.skip(b - a));
            assert(piece.spec_bytes() =~= encode_utf8(t.take(b - a)));
            lemma_encode_injective(piece@, t.take(b - a));
        }
        Some(piece.to_owned())
    }
}

impl Clone for TinyShakespeare {
    fn clone(&self) -> (r: Self)
        ensures
            r@ == self@,
    {
        proof {
            use_type_invariant(self);
        }
        let text = self.text.clone();
        let mut line_offsets: Vec<(usize, usize)> = Vec::new();
        for i in 0..self.line_offsets.len()
            invariant
                line_offsets@ == self.line_offsets@.take(i as int),
        {
            line_offsets.push(self.line_offsets[i]);
            assert(line_offsets@ =~= self.line_offsets@.take(i + 1));
        }
        assert(line_offsets@ =~= self.line_offsets@);
        TinyShakespeare { text, line_offsets, spans: Ghost(self.spans@) }
    }
}

/// Byte and character ranges of the lines of `text`.
fn build_line_offsets(text: &str) -> (r: (Vec<(usize, usize)>, Ghost<Seq<(int, int)>>))
    ensures
        offsets_locate_lines(text@, r.1@, r.0@),
{
    let ghost s = text@;
    let total = text.as_bytes().len();
    let mut offsets: Vec<(usize, usize)> = Vec::new();
    let mut start: usize = 0;
    let mut pos: usize = 0;
    let ghost mut start_c: int = 0;
    let ghost mut spans: Seq<(int, int)> = Seq::empty();
    proof {
        assert(s.take(0) =~= Seq::<char>::empty());
        assert(pieces(s.take(0)) =~= seq![s.subrange(0, 0)]);
        assert(s.take(s.len() as int) =~= s);
    }
    for c in it: text.chars()
        invariant
            it.seq() == s,
            s == text@,
            total == encode_utf8(s).len(),
            0 <= start_c <= it.index() <= s.len(),
            pos == byte_offset(s, it.index() as int),
            start == byte_offset(s, start_c),
            spans.len() == offsets@.len(),
            forall|i: int|
                0 <= i < spans.len() ==> {
                    &&& 0 <= (#[trigger] spans[i]).0 <= spans[i].1 < start_c
                    &&& s[spans[i].1] == '\n'
                    &&& offsets@[i].0 == byte_offset(s, spans[i].0)
                    &&& offsets@[i].1 == byte_offset(s, spans[i].1)
                },
            spans.len() > 0 ==> spans[0].0 == 0,
            forall|i: int, j: int|
                0 <= i && j == i + 1 && j < spans.len() ==> (#[trigger] spans[j]).0 == (
                #[trigger] spans[i]).1 + 1,
            start_c == (if spans.len() == 0 {
                0
            } else {
                spans[spans.len() - 1].1 + 1
            }),
            forall|j: int| start_c <= j < it.index() ==> s[j] != '\n',
            pieces(s.take(it.index() as int)) == Seq::new(
                spans.len(),
                |i: int| s.subrange(spans[i].0, spans[i].1),
            ).push(s.subrange(start_c, it.index() as int)),
    {
        let ghost k = it.index() as int;
        let ghost before = Seq::new(spans.len(), |i: int| s.subrange(spans[i].0, spans[i].1));
        proof {
            assert(s[k] == c);
            lemma_offset_step(s, k);
            assert(s.take(k + 1).drop_last() =~= s.take(k));
            assert(s.take(k + 1).last() == c);
        }
        let w = utf8_width(c);
        if c == '\n' {
            offsets.push((start, pos));
            pos = pos + w;
            start = pos;
            proof {
                spans = spans.push((start_c, k));
                start_c = k + 1;
                assert(spans[spans.len() - 1] == (spans[spans.len() - 1].0, k));
                assert(Seq::new(spans.len(), |i: int| s.subrange(spans[i].0, spans[i].1))
                    =~= before.push(s.subrange(spans[spans.len() - 1].0, k)));
                assert(s.subrange(k + 1, k + 1) =~= Seq::<char>::empty());
            }
        } else {
            pos = pos + w;
            proof {
                assert(s.subrange(start_c, k + 1) =~= s.subrange(start_c, k).push(c));
                assert(Seq::new(spans.len(), |i: int| s.subrange(spans[i].0, spans[i].1)).push(
                    s.subrange(start_c, k + 1),
                ) =~= before.push(s.subrange(start_c, k)).update(
                    before.len() as int,
                    before.push(s.subrange(start_c, k))[before.len() as int].push(c),
                ));
            }
        }
    }
    let ghost before = Seq::new(spans.len(), |i: int| s.subrange(spans[i].0, spans[i].1));
    proof {
        assert(s.take(s.len() as int) =~= s);
        assert(pieces(s) == before.push(s.subrange(start_c, s.len() as int)));
        lemma_split_after(s, s.len() as int);
    }
    if start < total {
        offsets.push((start, total));
        proof {
            assert(s.subrange(start_c, s.len() as int).len() > 0) by {
                if start_c == s.len() {
                    assert(start == total);
                }
            }
            assert(s.take(s.len() as int) =~= s);
            spans = spans.push((start_c, s.len() as int));
            assert(lines(s) =~= Seq::new(spans.len(), |i: int| s.subrange(spans[i].0, spans[i].1)));
            assert(s[s.len() - 1] != '\n');
        }
    } else {
        proof {
            assert(start_c == s.len()) by {
                if start_c < s.len() {
                    lemma_offsets_between(s, start_c, s.len() as int);
                    assert(s.take(s.len() as int) =~= s);
                    lemma_encode_len_positive(s.subrange(start_c, s.len() as int));
                }
            }
            assert(s.subrange(start_c, s.len() as int) =~= Seq::<char>::empty());
            assert(lines(s) =~= before);
            if s.len() > 0 {
                assert(spans.len() > 0);
                assert(s[spans[spans.len() - 1].1] == '\n');
            }
        }
    }
    (offsets, Ghost(spans))
}

/// A nonempty text has a nonempty encoding.
proof fn lemma_encode_len_positive(s: Seq<char>)
    requires
        s.len() > 0,
    ensures
        encode_utf8(s).len() > 0,
{
    encode_utf8_first_scalar(s);
}

} // verus!
