use vstd::prelude::*;

verus! {

// ---------------------------------------------------------------------------
// Character classes
// ---------------------------------------------------------------------------

/// True exactly of the Han characters that the annotator considers for
/// phonetic markup (the CJK Unified Ideographs block).
pub open spec fn is_han_spec(c: char) -> bool {
    '\u{4e00}' <= c && c <= '\u{9fff}'
}

pub fn is_han(c: char) -> (r: bool)
    ensures
        r == is_han_spec(c),
{
    '\u{4e00}' <= c && c <= '\u{9fff}'
}

/// The four tone markers (tones 2-5; tone 1 is unmarked).
pub open spec fn is_tone_marker_spec(c: char) -> bool {
    c == '\u{02ca}' || c == '\u{02c7}' || c == '\u{02cb}' || c == '\u{02d9}'
}

pub fn is_tone_marker(c: char) -> (r: bool)
    ensures
        r == is_tone_marker_spec(c),
{
    c == '\u{02ca}' || c == '\u{02c7}' || c == '\u{02cb}' || c == '\u{02d9}'
}

/// Bopomofo syllable symbols and tone markers: the characters a purely
/// phonetic dictionary key is made of.
pub open spec fn is_phonetic_symbol_spec(c: char) -> bool {
    ('\u{3105}' <= c && c <= '\u{312f}') || is_tone_marker_spec(c)
}

pub fn is_phonetic_symbol(c: char) -> (r: bool)
    ensures
        r == is_phonetic_symbol_spec(c),
{
    ('\u{3105}' <= c && c <= '\u{312f}') || is_tone_marker(c)
}

pub open spec fn contains_han(s: Seq<char>) -> bool {
    exists|i: int| 0 <= i < s.len() && is_han_spec(s[i])
}

pub fn has_han(v: &Vec<char>) -> (r: bool)
    ensures
        r == contains_han(v@),
{
    let mut i: usize = 0;
    while i < v.len()
        invariant
            i <= v.len(),
            forall|k: int| 0 <= k < i ==> !is_han_spec(v@[k]),
        decreases v.len() - i,
    {
        if is_han(v[i]) {
            return true;
        }
        i = i + 1;
    }
    false
}

pub open spec fn all_phonetic(s: Seq<char>) -> bool {
    forall|i: int| 0 <= i < s.len() ==> is_phonetic_symbol_spec(s[i])
}

pub fn is_all_phonetic(v: &Vec<char>) -> (r: bool)
    ensures
        r == all_phonetic(v@),
{
    let mut i: usize = 0;
    while i < v.len()
        invariant
            i <= v.len(),
            forall|k: int| 0 <= k < i ==> is_phonetic_symbol_spec(v@[k]),
        decreases v.len() - i,
    {
        if !is_phonetic_symbol(v[i]) {
            return false;
        }
        i = i + 1;
    }
    true
}

// ---------------------------------------------------------------------------
// Sequence utilities
// ---------------------------------------------------------------------------

/// `p` is a prefix of `s`.
pub open spec fn has_prefix(s: Seq<char>, p: Seq<char>) -> bool {
    p.len() <= s.len() && s.subrange(0, p.len() as int) == p
}

pub fn starts_with(v: &Vec<char>, p: &Vec<char>) -> (r: bool)
    ensures
        r == has_prefix(v@, p@),
{
    if p.len() > v.len() {
        assert(!has_prefix(v@, p@));
        return false;
    }
    let mut i: usize = 0;
    while i < p.len()
        invariant
            i <= p.len() <= v.len(),
            forall|k: int| 0 <= k < i ==> v@[k] == p@[k],
        decreases p.len() - i,
    {
        if v[i] != p[i] {
            assert(v@.subrange(0, p@.len() as int)[i as int] != p@[i as int]);
            return false;
        }
        i = i + 1;
    }
    assert(v@.subrange(0, p@.len() as int) =~= p@);
    true
}

pub fn chars_eq(a: &Vec<char>, b: &Vec<char>) -> (r: bool)
    ensures
        r == (a@ == b@),
{
    if a.len() != b.len() {
        return false;
    }
    let mut i: usize = 0;
    while i < a.len()
        invariant
            i <= a.len() == b.len(),
            forall|k: int| 0 <= k < i ==> a@[k] == b@[k],
        decreases a.len() - i,
    {
        if a[i] != b[i] {
            return false;
        }
        i = i + 1;
    }
    assert(a@ =~= b@);
    true
}

/// Append all of `src` to `dst`.
pub fn push_all(dst: &mut Vec<char>, src: &Vec<char>)
    ensures
        final(dst)@ == old(dst)@ + src@,
{
    let mut i: usize = 0;
    while i < src.len()
        invariant
            i <= src.len(),
            dst@ == old(dst)@ + src@.subrange(0, i as int),
        decreases src.len() - i,
    {
        dst.push(src[i]);
        assert(old(dst)@ + src@.subrange(0, i as int) + seq![src@[i as int]] =~= old(dst)@
            + src@.subrange(0, i + 1));
        i = i + 1;
    }
    assert(src@.subrange(0, src@.len() as int) =~= src@);
}

/// Copy `v[from..to]` into a fresh vector.
pub fn sub_vec(v: &Vec<char>, from: usize, to: usize) -> (r: Vec<char>)
    requires
        from <= to <= v@.len(),
    ensures
        r@ == v@.subrange(from as int, to as int),
{
    let mut r: Vec<char> = Vec::new();
    let mut i: usize = from;
    while i < to
        invariant
            from <= i <= to <= v@.len(),
            r@ == v@.subrange(from as int, i as int),
        decreases to - i,
    {
        r.push(v[i]);
        assert(v@.subrange(from as int, i as int) + seq![v@[i as int]] =~= v@.subrange(
            from as int,
            i + 1,
        ));
        i = i + 1;
    }
    r
}

/// Concatenation of a sequence of character sequences, in order.
pub open spec fn concat_all(ss: Seq<Seq<char>>) -> Seq<char>
    decreases ss.len(),
{
    if ss.len() == 0 {
        Seq::empty()
    } else {
        ss[0] + concat_all(ss.drop_first())
    }
}

/// The views of a vector of character vectors.
pub open spec fn views_of(ss: Seq<Vec<char>>) -> Seq<Seq<char>> {
    ss.map_values(|v: Vec<char>| v@)
}

/// First index at which `c` occurs in `s` (or `s.len()` if it does not).
pub open spec fn find0(s: Seq<char>, c: char) -> int
    decreases s.len(),
{
    if s.len() == 0 {
        0
    } else if s[0] == c {
        0
    } else {
        1 + find0(s.drop_first(), c)
    }
}

pub proof fn lemma_find0_bounds(s: Seq<char>, c: char)
    ensures
        0 <= find0(s, c) <= s.len(),
        find0(s, c) < s.len() ==> s[find0(s, c)] == c,
        forall|k: int| 0 <= k < find0(s, c) ==> s[k] != c,
    decreases s.len(),
{
    if s.len() != 0 && s[0] != c {
        lemma_find0_bounds(s.drop_first(), c);
        assert forall|k: int| 0 <= k < find0(s, c) implies s[k] != c by {
            if k > 0 {
                assert(s.drop_first()[k - 1] == s[k]);
            }
        }
    }
}

/// Split `s` at every occurrence of `sep`; separators are dropped and empty
/// pieces are kept, so the result has one piece more than `s` has separators.
pub open spec fn split_on(s: Seq<char>, sep: char) -> Seq<Seq<char>>
    decreases s.len(),
    via split_on_termination
{
    let i = find0(s, sep);
    if i >= s.len() {
        seq![s]
    } else {
        seq![s.take(i)] + split_on(s.skip(i + 1), sep)
    }
}

#[via_fn]
proof fn split_on_termination(s: Seq<char>, sep: char) {
    lemma_find0_bounds(s, sep);
}

/// Find the first occurrence of `c` in `v` at or after `from`.
pub fn find_char(v: &Vec<char>, from: usize, c: char) -> (r: usize)
    requires
        from <= v@.len(),
    ensures
        from <= r <= v@.len(),
        r - from == find0(v@.skip(from as int), c),
{
    let mut j: usize = from;
    while j < v.len()
        invariant
            from <= j <= v@.len(),
            find0(v@.skip(from as int), c) == (j - from) + find0(v@.skip(j as int), c),
            forall|k: int| from <= k < j ==> v@[k] != c,
        decreases v.len() - j,
    {
        if v[j] == c {
            assert(v@.skip(j as int)[0] == c);
            return j;
        }
        assert(v@.skip(j as int).drop_first() =~= v@.skip(j + 1));
        j = j + 1;
    }
    assert(v@.skip(j as int) =~= Seq::<char>::empty());
    j
}

pub fn copy_vec(v: &Vec<char>) -> (r: Vec<char>)
    ensures
        r@ == v@,
{
    let r = sub_vec(v, 0, v.len());
    assert(v@.subrange(0, v@.len() as int) =~= v@);
    r
}

/// Split `v` at every occurrence of `sep`, as `split_on` describes.
pub fn split_vec(v: &Vec<char>, sep: char) -> (r: Vec<Vec<char>>)
    ensures
        views_of(r@) == split_on(v@, sep),
{
    let mut out: Vec<Vec<char>> = Vec::new();
    let mut pos: usize = 0;
    let mut done = false;
    proof {
        assert(v@.skip(0) =~= v@);
    }
    while !done
        invariant
            pos <= v@.len(),
            !done ==> split_on(v@, sep) == views_of(out@) + split_on(v@.skip(pos as int), sep),
            done ==> views_of(out@) == split_on(v@, sep),
        decreases v@.len() - pos + (if done { 0int } else { 1int }),
    {
        let ghost rest = v@.skip(pos as int);
        let j = find_char(v, pos, sep);
        proof {
            lemma_find0_bounds(rest, sep);
        }
        if j == v.len() {
            let piece = sub_vec(v, pos, j);
            proof {
                assert(find0(rest, sep) == rest.len());
                assert(split_on(rest, sep) =~= seq![rest]);
                assert(piece@ =~= rest);
                assert(views_of(out@.push(piece)) =~= views_of(out@) + seq![piece@]);
                assert(views_of(out@) + split_on(rest, sep) =~= views_of(out@.push(piece)));
            }
            out.push(piece);
            done = true;
        } else {
            let piece = sub_vec(v, pos, j);
            proof {
                assert(find0(rest, sep) == j - pos < rest.len());
                assert(split_on(rest, sep) == seq![rest.take(j - pos)] + split_on(
                    rest.skip(j - pos + 1),
                    sep,
                ));
                assert(rest.take(j - pos) =~= piece@);
                assert(rest.skip(j - pos + 1) =~= v@.skip(j + 1));
                assert(views_of(out@.push(piece)) =~= views_of(out@) + seq![piece@]);
                assert(views_of(out@) + split_on(rest, sep) =~= views_of(out@.push(piece))
                    + split_on(v@.skip(j + 1), sep));
            }
            out.push(piece);
            pos = j + 1;
        }
    }
    out
}

} // verus!
