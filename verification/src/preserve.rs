use vstd::prelude::*;
use crate::annotate::{
    rt_open, rt_close, ruby_open, ruby_close, render_group, render_groups, base_of, mark_of,
    transform_segment_spec, annotate_all, valid_annotation,
};
use crate::chars::{has_prefix, contains_han, concat_all, split_on, is_tone_marker_spec};
use crate::dict::lookup;

verus! {

// ---------------------------------------------------------------------------
// Stripping ruby markup
// ---------------------------------------------------------------------------

/// `s` holds no `<`, so it can carry no markup of its own.
pub open spec fn no_lt(s: Seq<char>) -> bool {
    forall|i: int| 0 <= i < s.len() ==> s[i] != '<'
}

/// Remove ruby markup: drop every `<rt>...</rt>` annotation whole, and
/// drop every other tag, keeping all remaining text.
pub open spec fn strip_ruby(s: Seq<char>) -> Seq<char>
    decreases s.len(),
{
    if s.len() == 0 {
        Seq::empty()
    } else if has_prefix(s, rt_open()) {
        strip_in_rt(s.skip(4))
    } else if s[0] == '<' {
        strip_in_tag(s.drop_first())
    } else {
        seq![s[0]] + strip_ruby(s.drop_first())
    }
}

/// Inside an `<rt>` annotation: drop everything up to and including the
/// closing `</rt>`.
pub open spec fn strip_in_rt(s: Seq<char>) -> Seq<char>
    decreases s.len(),
{
    if s.len() == 0 {
        Seq::empty()
    } else if has_prefix(s, rt_close()) {
        strip_ruby(s.skip(5))
    } else {
        strip_in_rt(s.drop_first())
    }
}

/// Inside any other tag: drop everything up to and including `>`.
pub open spec fn strip_in_tag(s: Seq<char>) -> Seq<char>
    decreases s.len(),
{
    if s.len() == 0 {
        Seq::empty()
    } else if s[0] == '>' {
        strip_ruby(s.drop_first())
    } else {
        strip_in_tag(s.drop_first())
    }
}

// ---------------------------------------------------------------------------
// Stripping lemmas
// ---------------------------------------------------------------------------

/// Plain text without `<` passes through the stripper untouched.
proof fn lemma_strip_plain(s: Seq<char>, rest: Seq<char>)
    requires
        no_lt(s),
    ensures
        strip_ruby(s + rest) == s + strip_ruby(rest),
    decreases s.len(),
{
    if s.len() == 0 {
        assert(s + rest =~= rest);
        assert(s + strip_ruby(rest) =~= strip_ruby(rest));
    } else {
        let w = s + rest;
        assert(w[0] == s[0]);
        assert(s[0] != '<');
        assert(!has_prefix(w, rt_open())) by {
            if has_prefix(w, rt_open()) {
                assert(w.subrange(0, 4)[0] == w[0]);
                assert(rt_open()[0] == '<');
            }
        }
        assert(w.drop_first() =~= s.drop_first() + rest);
        lemma_strip_plain(s.drop_first(), rest);
        assert(strip_ruby(w) == seq![s[0]] + (s.drop_first() + strip_ruby(rest)));
        assert(seq![s[0]] + (s.drop_first() + strip_ruby(rest)) =~= s + strip_ruby(rest));
    }
}

/// Inside a tag, everything up to the closing `>` is dropped.
proof fn lemma_strip_tag_body(b: Seq<char>, rest: Seq<char>)
    requires
        forall|i: int| 0 <= i < b.len() ==> b[i] != '>',
    ensures
        strip_in_tag(b + seq!['>'] + rest) == strip_ruby(rest),
    decreases b.len(),
{
    if b.len() == 0 {
        let w = b + seq!['>'] + rest;
        assert(w[0] == '>');
        assert(w.drop_first() =~= rest);
    } else {
        let w = b + seq!['>'] + rest;
        assert(w[0] == b[0]);
        assert(w.drop_first() =~= b.drop_first() + seq!['>'] + rest);
        lemma_strip_tag_body(b.drop_first(), rest);
    }
}

/// Inside an `<rt>` annotation, content without `<` is dropped up to the
/// closing `</rt>`.
proof fn lemma_strip_rt_content(c: Seq<char>, rest: Seq<char>)
    requires
        no_lt(c),
    ensures
        strip_in_rt(c + rt_close() + rest) == strip_ruby(rest),
    decreases c.len(),
{
    if c.len() == 0 {
        let w = c + rt_close() + rest;
        assert(w =~= rt_close() + rest);
        assert(has_prefix(rt_close() + rest, rt_close())) by {
            assert((rt_close() + rest).subrange(0, 5) =~= rt_close());
        }
        assert(w.skip(5) =~= rest);
    } else {
        let w = c + rt_close() + rest;
        assert(w[0] == c[0]);
        assert(c[0] != '<');
        assert(!has_prefix(w, rt_close())) by {
            if has_prefix(w, rt_close()) {
                assert(w.subrange(0, 5)[0] == w[0]);
                assert(rt_close()[0] == '<');
            }
        }
        assert(w.drop_first() =~= c.drop_first() + rt_close() + rest);
        lemma_strip_rt_content(c.drop_first(), rest);
    }
}

/// Stripping one rendered ruby group yields exactly its base character.
proof fn lemma_strip_group(c: char, part: Seq<char>, rest: Seq<char>)
    requires
        c != '<',
        no_lt(part),
    ensures
        strip_ruby(render_group(c, part) + rest) == seq![c] + strip_ruby(rest),
{
    let w = render_group(c, part) + rest;
    // the group always opens with "<ruby>"
    let after_open: Seq<char> = match mark_of(part) {
        Some(m) => seq![c] + rt_open() + base_of(part) + rt_close() + rt_open() + seq![m]
            + rt_close() + ruby_close() + rest,
        None => seq![c] + rt_open() + part + rt_close() + ruby_close() + rest,
    };
    assert(w =~= ruby_open() + after_open);
    assert(w[0] == '<');
    assert(!has_prefix(w, rt_open())) by {
        if has_prefix(w, rt_open()) {
            assert(w.subrange(0, 4)[2] == w[2]);
            assert(w[2] == 'u');
            assert(rt_open()[2] == 't');
        }
    }
    assert(w.drop_first() =~= seq!['r', 'u', 'b', 'y'] + seq!['>'] + after_open);
    lemma_strip_tag_body(seq!['r', 'u', 'b', 'y'], after_open);
    assert(strip_ruby(w) == strip_ruby(after_open));
    // the base character itself
    lemma_strip_plain(seq![c], after_open.drop_first());
    assert(after_open =~= seq![c] + after_open.drop_first());
    // now the first <rt> annotation
    match mark_of(part) {
        Some(m) => {
            let r1 = base_of(part) + rt_close() + rt_open() + seq![m] + rt_close() + ruby_close()
                + rest;
            assert(after_open.drop_first() =~= rt_open() + r1);
            assert(has_prefix(rt_open() + r1, rt_open())) by {
                assert((rt_open() + r1).subrange(0, 4) =~= rt_open());
            }
            assert((rt_open() + r1).skip(4) =~= r1);
            assert(no_lt(base_of(part))) by {
                assert(forall|i: int|
                    0 <= i < base_of(part).len() ==> base_of(part)[i] == part[i]);
            }
            let r2 = rt_open() + seq![m] + rt_close() + ruby_close() + rest;
            assert(r1 =~= base_of(part) + rt_close() + r2);
            lemma_strip_rt_content(base_of(part), r2);
            // the tone-mark annotation
            assert(has_prefix(r2, rt_open())) by {
                assert(r2.subrange(0, 4) =~= rt_open());
            }
            let r3 = seq![m] + rt_close() + ruby_close() + rest;
            assert(r2.skip(4) =~= r3);
            assert(m != '<') by {
                assert(is_tone_marker_spec(m));
            }
            assert(r3 =~= seq![m] + rt_close() + (ruby_close() + rest));
            lemma_strip_rt_content(seq![m], ruby_close() + rest);
            // the closing "</ruby>"
            lemma_strip_ruby_close(rest);
            assert(strip_ruby(after_open.drop_first()) == strip_ruby(rest));
            assert(strip_ruby(w) == seq![c] + strip_ruby(rest));
        },
        None => {
            let r2 = ruby_close() + rest;
            assert(after_open.drop_first() =~= rt_open() + (part + rt_close() + r2));
            assert(has_prefix(rt_open() + (part + rt_close() + r2), rt_open())) by {
                assert((rt_open() + (part + rt_close() + r2)).subrange(0, 4) =~= rt_open());
            }
            assert((rt_open() + (part + rt_close() + r2)).skip(4) =~= part + rt_close() + r2);
            lemma_strip_rt_content(part, r2);
            lemma_strip_ruby_close(rest);
            assert(strip_ruby(after_open.drop_first()) == strip_ruby(rest));
            assert(strip_ruby(w) == seq![c] + strip_ruby(rest));
        },
    }
}

/// Stripping "</ruby>" drops it whole.
proof fn lemma_strip_ruby_close(rest: Seq<char>)
    ensures
        strip_ruby(ruby_close() + rest) == strip_ruby(rest),
{
    let w = ruby_close() + rest;
    assert(w[0] == '<');
    assert(!has_prefix(w, rt_open())) by {
        if has_prefix(w, rt_open()) {
            assert(w.subrange(0, 4)[1] == w[1]);
            assert(w[1] == '/');
            assert(rt_open()[1] == 'r');
        }
    }
    assert(w.drop_first() =~= seq!['/', 'r', 'u', 'b', 'y'] + seq!['>'] + rest);
    lemma_strip_tag_body(seq!['/', 'r', 'u', 'b', 'y'], rest);
}

/// Stripping a whole rendered segment yields its characters back.
proof fn lemma_strip_groups(cs: Seq<char>, ps: Seq<Seq<char>>, rest: Seq<char>)
    requires
        cs.len() == ps.len(),
        no_lt(cs),
        forall|i: int| 0 <= i < ps.len() ==> no_lt(#[trigger] ps[i]),
    ensures
        strip_ruby(render_groups(cs, ps) + rest) == cs + strip_ruby(rest),
    decreases cs.len(),
{
    if cs.len() == 0 {
        assert(render_groups(cs, ps) + rest =~= rest);
        assert(cs + strip_ruby(rest) =~= strip_ruby(rest));
    } else {
        assert(render_groups(cs, ps) + rest =~= render_group(cs[0], ps[0]) + (render_groups(
            cs.drop_first(),
            ps.drop_first(),
        ) + rest));
        assert(cs[0] != '<');
        assert(no_lt(ps[0]));
        lemma_strip_group(cs[0], ps[0], render_groups(cs.drop_first(), ps.drop_first()) + rest);
        assert(no_lt(cs.drop_first())) by {
            assert(forall|i: int|
                0 <= i < cs.drop_first().len() ==> cs.drop_first()[i] == cs[i + 1]);
        }
        assert(forall|i: int|
            0 <= i < ps.drop_first().len() ==> no_lt(#[trigger] ps.drop_first()[i]));
        lemma_strip_groups(cs.drop_first(), ps.drop_first(), rest);
        assert(seq![cs[0]] + (cs.drop_first() + strip_ruby(rest)) =~= cs + strip_ruby(rest));
    }
}

// ---------------------------------------------------------------------------
// From the dictionary to the rendered parts
// ---------------------------------------------------------------------------

/// No phonetic string of the dictionary holds a `<`.
pub open spec fn dict_no_lt(es: Seq<(Seq<char>, Seq<char>)>) -> bool {
    forall|i: int| 0 <= i < es.len() ==> no_lt(#[trigger] es[i].1)
}

proof fn lemma_lookup_no_lt(es: Seq<(Seq<char>, Seq<char>)>, w: Seq<char>)
    requires
        dict_no_lt(es),
        lookup(es, w) is Some,
    ensures
        no_lt(lookup(es, w)->Some_0),
    decreases es.len(),
{
    if es.len() > 0 {
        if es[0].0 == w {
            assert(no_lt(es[0].1));
        } else {
            assert(forall|i: int|
                0 <= i < es.drop_first().len() ==> es.drop_first()[i] == es[i + 1]);
            lemma_lookup_no_lt(es.drop_first(), w);
        }
    }
}

proof fn lemma_split_no_lt(s: Seq<char>, sep: char)
    requires
        no_lt(s),
        sep != '<',
    ensures
        forall|i: int| 0 <= i < split_on(s, sep).len() ==> no_lt(#[trigger] split_on(s, sep)[i]),
    decreases s.len(),
{
    let k = crate::chars::find0(s, sep);
    crate::chars::lemma_find0_bounds(s, sep);
    if k >= s.len() {
        assert(split_on(s, sep) =~= seq![s]);
    } else {
        assert(no_lt(s.take(k)));
        assert(no_lt(s.skip(k + 1))) by {
            assert(forall|i: int|
                0 <= i < s.skip(k + 1).len() ==> #[trigger] s.skip(k + 1)[i] == s[i + k + 1]);
        }
        lemma_split_no_lt(s.skip(k + 1), sep);
        assert(split_on(s, sep) =~= seq![s.take(k)] + split_on(s.skip(k + 1), sep));
        assert forall|i: int| 0 <= i < split_on(s, sep).len() implies no_lt(
            #[trigger] split_on(s, sep)[i],
        ) by {
            if i == 0 {
                assert(split_on(s, sep)[0] == s.take(k));
            } else {
                assert(split_on(s, sep)[i] == split_on(s.skip(k + 1), sep)[i - 1]);
            }
        }
    }
}

/// Stripping the annotation of one segment yields the segment back.
proof fn lemma_strip_transform_segment(
    seg: Seq<char>,
    es: Seq<(Seq<char>, Seq<char>)>,
    rest: Seq<char>,
)
    requires
        no_lt(seg),
        dict_no_lt(es),
    ensures
        strip_ruby(transform_segment_spec(seg, es) + rest) == seg + strip_ruby(rest),
{
    if !contains_han(seg) {
        lemma_strip_plain(seg, rest);
    } else {
        match lookup(es, seg) {
            None => {
                lemma_strip_plain(seg, rest);
            },
            Some(phon) => {
                let parts = split_on(phon, ' ');
                if parts.len() == seg.len() {
                    lemma_lookup_no_lt(es, seg);
                    lemma_split_no_lt(phon, ' ');
                    lemma_strip_groups(seg, parts, rest);
                } else {
                    lemma_strip_plain(seg, rest);
                }
            },
        }
    }
}

proof fn lemma_strip_annotate_all(segs: Seq<Seq<char>>, es: Seq<(Seq<char>, Seq<char>)>)
    requires
        forall|i: int| 0 <= i < segs.len() ==> no_lt(#[trigger] segs[i]),
        dict_no_lt(es),
    ensures
        strip_ruby(annotate_all(segs, es)) == concat_all(segs),
    decreases segs.len(),
{
    if segs.len() == 0 {
        assert(annotate_all(segs, es) =~= Seq::<char>::empty());
        assert(concat_all(segs) =~= Seq::<char>::empty());
    } else {
        assert(annotate_all(segs, es) == transform_segment_spec(segs[0], es) + annotate_all(
            segs.drop_first(),
            es,
        ));
        assert(forall|i: int|
            0 <= i < segs.drop_first().len() ==> no_lt(#[trigger] segs.drop_first()[i]));
        lemma_strip_transform_segment(segs[0], es, annotate_all(segs.drop_first(), es));
        lemma_strip_annotate_all(segs.drop_first(), es);
    }
}

proof fn lemma_concat_no_lt(segs: Seq<Seq<char>>)
    requires
        no_lt(concat_all(segs)),
    ensures
        forall|i: int| 0 <= i < segs.len() ==> no_lt(#[trigger] segs[i]),
    decreases segs.len(),
{
    if segs.len() > 0 {
        let w = concat_all(segs);
        assert(w == segs[0] + concat_all(segs.drop_first()));
        assert forall|j: int| 0 <= j < segs[0].len() implies segs[0][j] != '<' by {
            assert(segs[0][j] == w[j]);
            assert(w[j] != '<');
        }
        assert(no_lt(segs[0]));
        assert forall|j: int|
            0 <= j < concat_all(segs.drop_first()).len() implies concat_all(segs.drop_first())[j]
            != '<' by {
            assert(concat_all(segs.drop_first())[j] == w[j + segs[0].len()]);
            assert(w[j + segs[0].len()] != '<');
        }
        assert(no_lt(concat_all(segs.drop_first())));
        lemma_concat_no_lt(segs.drop_first());
        assert forall|i: int| 0 <= i < segs.len() implies no_lt(#[trigger] segs[i]) by {
            if i > 0 {
                assert(segs.drop_first()[i - 1] == segs[i]);
            }
        }
    }
}

/// Content preservation: for a text that holds no `<` and a dictionary
/// whose phonetic strings hold none, stripping the ruby markup from any
/// valid annotation of the text yields the text back, character for
/// character — annotation never drops or duplicates a character.
pub proof fn lemma_annotation_preserves_content(
    text: Seq<char>,
    ann: Seq<char>,
    es: Seq<(Seq<char>, Seq<char>)>,
)
    requires
        no_lt(text),
        dict_no_lt(es),
        valid_annotation(text, ann, es),
    ensures
        strip_ruby(ann) == text,
{
    let segs = choose|segs: Seq<Seq<char>>|
        concat_all(segs) == text && ann == annotate_all(segs, es);
    lemma_concat_no_lt(segs);
    lemma_strip_annotate_all(segs, es);
}

} // verus!
