//! The lexical layer: whitespace, words, and splitting at a separator.
//!
//! Everything here is stated over `Seq<char>`; the executable functions work
//! on `&[char]` and hand out sub-slices of their argument.

use vstd::prelude::*;
use vstd::slice::slice_subrange;

verus! {

/// The characters that separate words: the Unicode `White_Space` code points.
pub open spec fn is_space(c: char) -> bool {
    ||| ('\u{9}' <= c && c <= '\u{d}')
    ||| c == ' '
    ||| c == '\u{85}'
    ||| c == '\u{a0}'
    ||| c == '\u{1680}'
    ||| ('\u{2000}' <= c && c <= '\u{200a}')
    ||| c == '\u{2028}'
    ||| c == '\u{2029}'
    ||| c == '\u{202f}'
    ||| c == '\u{205f}'
    ||| c == '\u{3000}'
}

/// Tells whether `c` separates words.
pub fn is_space_char(c: char) -> (r: bool)
    ensures
        r == is_space(c),
{
    ('\u{9}' <= c && c <= '\u{d}') || c == ' ' || c == '\u{85}' || c == '\u{a0}' || c
        == '\u{1680}' || ('\u{2000}' <= c && c <= '\u{200a}') || c == '\u{2028}' || c
        == '\u{2029}' || c == '\u{202f}' || c == '\u{205f}' || c == '\u{3000}'
}

/// A word is a non-empty run of characters none of which is whitespace.
pub open spec fn is_word(s: Seq<char>) -> bool {
    &&& s.len() > 0
    &&& forall|i: int| 0 <= i < s.len() ==> !is_space(#[trigger] s[i])
}

/// The words of `s`: its maximal runs of non-whitespace characters, in order.
///
/// Read from the left, a whitespace character changes nothing, a character
/// that follows a non-whitespace character extends the last word, and any
/// other character starts a new word.
pub open spec fn tokens(s: Seq<char>) -> Seq<Seq<char>>
    decreases s.len(),
{
    if s.len() == 0 {
        Seq::empty()
    } else {
        let before = tokens(s.drop_last());
        if is_space(s.last()) {
            before
        } else if s.len() >= 2 && !is_space(s[s.len() - 2]) {
            before.drop_last().push(before.last().push(s.last()))
        } else {
            before.push(seq![s.last()])
        }
    }
}

/// The fields of `s` when it is cut at every occurrence of `sep`. There is
/// always at least one field, and fields may be empty.
pub open spec fn split(s: Seq<char>, sep: char) -> Seq<Seq<char>>
    decreases s.len(),
{
    if s.len() == 0 {
        seq![Seq::empty()]
    } else {
        let before = split(s.drop_last(), sep);
        if s.last() == sep {
            before.push(Seq::empty())
        } else {
            before.drop_last().push(before.last().push(s.last()))
        }
    }
}

/// The lines of a text: its fields between line feeds.
pub open spec fn lines(text: Seq<char>) -> Seq<Seq<char>> {
    split(text, '\n')
}

/// What a vector of slices stands for.
pub open spec fn slices_view(v: Seq<&[char]>) -> Seq<Seq<char>> {
    v.map_values(|s: &[char]| s@)
}

/// Appending whitespace adds no word.
pub proof fn lemma_tokens_push_space(s: Seq<char>, c: char)
    requires
        is_space(c),
    ensures
        tokens(s.push(c)) == tokens(s),
{
    assert(s.push(c).drop_last() =~= s);
}

/// A word appended where no word is open becomes the last word.
pub proof fn lemma_tokens_append_word(s: Seq<char>, w: Seq<char>)
    requires
        is_word(w),
        s.len() == 0 || is_space(s.last()),
    ensures
        tokens(s + w) == tokens(s).push(w),
    decreases w.len(),
{
    let t = s + w;
    assert(t.drop_last() =~= s + w.drop_last());
    assert(t.last() == w.last());
    if w.len() == 1 {
        assert(s + w.drop_last() =~= s);
        assert(w =~= seq![w.last()]);
    } else {
        lemma_tokens_append_word(s, w.drop_last());
        assert(t[t.len() - 2] == w[w.len() - 2]);
        let before = tokens(s).push(w.drop_last());
        assert(before.drop_last() =~= tokens(s));
        assert(w.drop_last().push(w.last()) =~= w);
    }
}

/// Every word that `tokens` yields is a word.
pub proof fn lemma_tokens_are_words(s: Seq<char>)
    ensures
        forall|i: int| 0 <= i < tokens(s).len() ==> is_word(#[trigger] tokens(s)[i]),
        s.len() > 0 && !is_space(s.last()) ==> tokens(s).len() > 0,
    decreases s.len(),
{
    if s.len() > 0 {
        lemma_tokens_are_words(s.drop_last());
        let before = tokens(s.drop_last());
        if is_space(s.last()) {
        } else if s.len() >= 2 && !is_space(s[s.len() - 2]) {
            assert(s.drop_last().last() == s[s.len() - 2]);
            assert(before.len() > 0);
            assert(is_word(before.last()));
        } else {
        }
    }
}

/// `split` always yields a field.
pub proof fn lemma_split_nonempty(s: Seq<char>, sep: char)
    ensures
        split(s, sep).len() >= 1,
    decreases s.len(),
{
    if s.len() > 0 {
        lemma_split_nonempty(s.drop_last(), sep);
    }
}

/// Appending characters other than the separator extends the last field.
pub proof fn lemma_split_append(s: Seq<char>, w: Seq<char>, sep: char)
    requires
        forall|i: int| 0 <= i < w.len() ==> #[trigger] w[i] != sep,
    ensures
        split(s, sep).len() >= 1,
        split(s + w, sep) == split(s, sep).drop_last().push(split(s, sep).last() + w),
    decreases w.len(),
{
    lemma_split_nonempty(s, sep);
    let p = split(s, sep);
    if w.len() == 0 {
        assert(s + w =~= s);
        assert(p.last() + w =~= p.last());
        assert(p.drop_last().push(p.last()) =~= p);
    } else {
        let t = s + w;
        assert(t.drop_last() =~= s + w.drop_last());
        lemma_split_append(s, w.drop_last(), sep);
        let q = p.drop_last().push(p.last() + w.drop_last());
        assert(q.drop_last() =~= p.drop_last());
        assert((p.last() + w.drop_last()).push(w.last()) =~= p.last() + w);
    }
}

/// The fields that are closed stay as they are when more text follows.
pub proof fn lemma_split_prefix(s: Seq<char>, t: Seq<char>, sep: char)
    ensures
        split(s, sep).len() >= 1,
        split(s + t, sep).len() >= split(s, sep).len(),
        split(s + t, sep).take(split(s, sep).len() - 1) == split(s, sep).drop_last(),
    decreases t.len(),
{
    lemma_split_nonempty(s, sep);
    if t.len() == 0 {
        assert(s + t =~= s);
        assert(split(s, sep).take(split(s, sep).len() - 1) =~= split(s, sep).drop_last());
    } else {
        let u = s + t;
        assert(u.drop_last() =~= s + t.drop_last());
        lemma_split_prefix(s, t.drop_last(), sep);
        let before = split(s + t.drop_last(), sep);
        let k = split(s, sep).len() - 1;
        if u.last() == sep {
            assert(before.push(Seq::empty()).take(k) =~= before.take(k));
        } else {
            assert(before.drop_last().push(before.last().push(u.last())).take(k) =~= before.take(
                k,
            ));
        }
    }
}

/// Appending the separator opens a new, empty field.
pub proof fn lemma_split_push_sep(s: Seq<char>, sep: char)
    ensures
        split(s.push(sep), sep) == split(s, sep).push(Seq::empty()),
{
    assert(s.push(sep).drop_last() =~= s);
}

/// `String::push` appends one character to the string.
pub assume_specification[ String::push ](s: &mut String, c: char)
    ensures
        final(s)@ == old(s)@.push(c),
;

/// The characters of `s`.
pub fn chars_of(s: &str) -> (v: Vec<char>)
    ensures
        v@ == s@,
{
    let mut v: Vec<char> = Vec::new();
    for c in it: s.chars()
        invariant
            v@ == it.seq().take(it.index() as int),
            it.seq() == s@,
    {
        v.push(c);
    }
    v
}

/// The string made of the characters of `s`.
pub fn string_of(s: &[char]) -> (r: String)
    ensures
        r@ == s@,
{
    let mut r = String::new();
    let mut i: usize = 0;
    while i < s.len()
        invariant
            i <= s.len(),
            r@ == s@.take(i as int),
        decreases s.len() - i,
    {
        r.push(s[i]);
        proof {
            assert(s@.take(i + 1) =~= s@.take(i as int).push(s[i as int]));
        }
        i += 1;
    }
    proof {
        assert(s@.take(s.len() as int) =~= s@);
    }
    r
}

/// Appends the characters of `s` to `out`.
pub fn push_chars(out: &mut String, s: &[char])
    ensures
        final(out)@ == old(out)@ + s@,
{
    let mut i: usize = 0;
    proof {
        assert(old(out)@ + s@.take(0) =~= old(out)@);
    }
    while i < s.len()
        invariant
            i <= s.len(),
            out@ == old(out)@ + s@.take(i as int),
        decreases s.len() - i,
    {
        out.push(s[i]);
        proof {
            assert(old(out)@ + s@.take(i + 1) =~= (old(out)@ + s@.take(i as int)).push(
                s[i as int],
            ));
        }
        i += 1;
    }
    proof {
        assert(s@.take(s.len() as int) =~= s@);
    }
}

/// Cuts `s` into its words.
pub fn tokenize<'a>(s: &'a [char]) -> (r: Vec<&'a [char]>)
    ensures
        slices_view(r@) == tokens(s@),
{
    let mut out: Vec<&'a [char]> = Vec::new();
    let n = s.len();
    let mut i: usize = 0;
    while i < n
        invariant
            n == s.len(),
            i <= n,
            slices_view(out@) == tokens(s@.take(i as int)),
            i == 0 || i == n || is_space(s[i - 1]) || is_space(s[i as int]),
        decreases n - i,
    {
        if is_space_char(s[i]) {
            proof {
                assert(s@.take(i + 1) =~= s@.take(i as int).push(s[i as int]));
                lemma_tokens_push_space(s@.take(i as int), s[i as int]);
            }
            i += 1;
        } else {
            let start = i;
            while i < n && !is_space_char(s[i])
                invariant
                    n == s.len(),
                    start <= i <= n,
                    start < n,
                    !is_space(s[start as int]),
                    forall|k: int| start <= k < i ==> !is_space(#[trigger] s[k]),
                decreases n - i,
            {
                i += 1;
            }
            let word = slice_subrange(s, start, i);
            proof {
                let head = s@.take(start as int);
                assert(is_word(word@));
                assert(head.len() == 0 || is_space(head.last()));
                lemma_tokens_append_word(head, word@);
                assert(s@.take(i as int) =~= head + word@);
                assert(slices_view(out@.push(word)) =~= slices_view(out@).push(word@));
            }
            out.push(word);
        }
    }
    proof {
        assert(s@.take(n as int) =~= s@);
    }
    out
}

/// Cuts `s` at every occurrence of `sep`.
pub fn split_at_char<'a>(s: &'a [char], sep: char) -> (r: Vec<&'a [char]>)
    ensures
        slices_view(r@) == split(s@, sep),
{
    let mut out: Vec<&'a [char]> = Vec::new();
    let n = s.len();
    let mut start: usize = 0;
    let mut i: usize = 0;
    proof {
        assert(s@.take(0) =~= Seq::<char>::empty());
        assert(slices_view(out@) =~= Seq::<Seq<char>>::empty());
        assert(s@.subrange(0, 0) =~= Seq::<char>::empty());
        assert(split(s@.take(0), sep) =~= Seq::<Seq<char>>::empty().push(Seq::<char>::empty()));
    }
    while i < n
        invariant
            n == s.len(),
            start <= i <= n,
            split(s@.take(i as int), sep) == slices_view(out@).push(
                s@.subrange(start as int, i as int),
            ),
        decreases n - i,
    {
        let ghost head = s@.take(i as int);
        let ghost cur = s@.subrange(start as int, i as int);
        proof {
            assert(s@.take(i + 1) =~= head.push(s[i as int]));
            assert(head.push(s[i as int]).drop_last() =~= head);
        }
        if s[i] == sep {
            let field = slice_subrange(s, start, i);
            proof {
                assert(slices_view(out@.push(field)) =~= slices_view(out@).push(field@));
                assert(s@.subrange(i + 1, i + 1) =~= Seq::<char>::empty());
            }
            out.push(field);
            start = i + 1;
        } else {
            proof {
                let before = slices_view(out@).push(cur);
                assert(before.drop_last() =~= slices_view(out@));
                assert(before.last() == cur);
                assert(cur.push(s[i as int]) =~= s@.subrange(start as int, i + 1));
            }
        }
        i += 1;
    }
    let field = slice_subrange(s, start, n);
    proof {
        assert(s@.take(n as int) =~= s@);
        assert(slices_view(out@.push(field)) =~= slices_view(out@).push(field@));
    }
    out.push(field);
    out
}

} // verus!
