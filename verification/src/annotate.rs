use vstd::prelude::*;
use crate::chars::{
    contains_han, has_han, is_tone_marker_spec, is_tone_marker, split_on, split_vec, views_of,
    copy_vec, sub_vec, push_all,
};
use crate::dict::{lookup, Dictionary};
use crate::segment::Segmenter;
use crate::chars::concat_all;
use crate::strutil::{chars_of, string_of};

verus! {

// ---------------------------------------------------------------------------
// Ruby markup, as character sequences
// ---------------------------------------------------------------------------

pub open spec fn ruby_open() -> Seq<char> {
    seq!['<', 'r', 'u', 'b', 'y', '>']
}

pub open spec fn ruby_close() -> Seq<char> {
    seq!['<', '/', 'r', 'u', 'b', 'y', '>']
}

pub open spec fn rt_open() -> Seq<char> {
    seq!['<', 'r', 't', '>']
}

pub open spec fn rt_close() -> Seq<char> {
    seq!['<', '/', 'r', 't', '>']
}

/// The phonetic part without a trailing tone marker.
pub open spec fn base_of(part: Seq<char>) -> Seq<char> {
    if part.len() > 0 && is_tone_marker_spec(part.last()) {
        part.drop_last()
    } else {
        part
    }
}

/// The trailing tone marker of a phonetic part, if it carries one.
pub open spec fn mark_of(part: Seq<char>) -> Option<char> {
    if part.len() > 0 && is_tone_marker_spec(part.last()) {
        Some(part.last())
    } else {
        None
    }
}

/// One rendered ruby group: the character with its phonetic part stacked
/// over it, a trailing tone marker split into an annotation of its own.
pub open spec fn render_group(c: char, part: Seq<char>) -> Seq<char> {
    match mark_of(part) {
        Some(m) => ruby_open() + seq![c] + rt_open() + base_of(part) + rt_close() + rt_open()
            + seq![m] + rt_close() + ruby_close(),
        None => ruby_open() + seq![c] + rt_open() + part + rt_close() + ruby_close(),
    }
}

/// All groups of a segment, characters paired with parts positionally.
pub open spec fn render_groups(cs: Seq<char>, ps: Seq<Seq<char>>) -> Seq<char>
    recommends
        cs.len() == ps.len(),
    decreases cs.len(),
{
    if cs.len() == 0 {
        Seq::empty()
    } else {
        render_group(cs[0], ps[0]) + render_groups(cs.drop_first(), ps.drop_first())
    }
}

pub proof fn lemma_render_groups_push(cs: Seq<char>, ps: Seq<Seq<char>>, c: char, p: Seq<char>)
    requires
        cs.len() == ps.len(),
    ensures
        render_groups(cs.push(c), ps.push(p)) == render_groups(cs, ps) + render_group(c, p),
    decreases cs.len(),
{
    if cs.len() == 0 {
        assert(cs.push(c).drop_first() =~= Seq::<char>::empty());
        assert(ps.push(p).drop_first() =~= Seq::<Seq<char>>::empty());
        assert(render_groups(Seq::<char>::empty(), Seq::<Seq<char>>::empty())
            =~= Seq::<char>::empty());
        assert(render_groups(cs.push(c), ps.push(p)) =~= render_group(c, p) + Seq::<char>::empty());
        assert(render_groups(cs.push(c), ps.push(p)) =~= render_groups(cs, ps) + render_group(c, p));
    } else {
        assert(cs.push(c).drop_first() =~= cs.drop_first().push(c));
        assert(ps.push(p).drop_first() =~= ps.drop_first().push(p));
        lemma_render_groups_push(cs.drop_first(), ps.drop_first(), c, p);
        assert(render_groups(cs.push(c), ps.push(p)) =~= render_groups(cs, ps) + render_group(
            c,
            p,
        ));
    }
}

/// What annotating one segment yields: the segment itself when it has no
/// Han character, no dictionary entry matches it whole, or the entry's
/// space-delimited part count differs from its character count; otherwise
/// its rendered ruby groups.
pub open spec fn transform_segment_spec(
    seg: Seq<char>,
    es: Seq<(Seq<char>, Seq<char>)>,
) -> Seq<char> {
    if !contains_han(seg) {
        seg
    } else {
        match lookup(es, seg) {
            None => seg,
            Some(phon) => {
                let parts = split_on(phon, ' ');
                if parts.len() == seg.len() {
                    render_groups(seg, parts)
                } else {
                    seg
                }
            },
        }
    }
}

// ---------------------------------------------------------------------------
// Executable rendering
// ---------------------------------------------------------------------------

fn push_ruby_open(out: &mut Vec<char>)
    ensures
        final(out)@ == old(out)@ + ruby_open(),
{
    out.push('<');
    out.push('r');
    out.push('u');
    out.push('b');
    out.push('y');
    out.push('>');
    assert(out@ =~= old(out)@ + ruby_open());
}

fn push_ruby_close(out: &mut Vec<char>)
    ensures
        final(out)@ == old(out)@ + ruby_close(),
{
    out.push('<');
    out.push('/');
    out.push('r');
    out.push('u');
    out.push('b');
    out.push('y');
    out.push('>');
    assert(out@ =~= old(out)@ + ruby_close());
}

fn push_rt_open(out: &mut Vec<char>)
    ensures
        final(out)@ == old(out)@ + rt_open(),
{
    out.push('<');
    out.push('r');
    out.push('t');
    out.push('>');
    assert(out@ =~= old(out)@ + rt_open());
}

fn push_rt_close(out: &mut Vec<char>)
    ensures
        final(out)@ == old(out)@ + rt_close(),
{
    out.push('<');
    out.push('/');
    out.push('r');
    out.push('t');
    out.push('>');
    assert(out@ =~= old(out)@ + rt_close());
}

/// Render the paired characters and phonetic parts as ruby groups, one
/// group per character, a trailing tone marker split off as its own
/// annotation.
pub fn synthesize_char_and_bopo(chars: Vec<char>, bopo_parts: Vec<Vec<char>>) -> (r: Vec<char>)
    requires
        chars@.len() == bopo_parts@.len(),
    ensures
        r@ == render_groups(chars@, views_of(bopo_parts@)),
{
    let ghost pvs = views_of(bopo_parts@);
    let mut out: Vec<char> = Vec::new();
    let mut i: usize = 0;
    proof {
        assert(chars@.subrange(0, 0) =~= Seq::<char>::empty());
        assert(pvs.subrange(0, 0) =~= Seq::<Seq<char>>::empty());
        assert(render_groups(Seq::<char>::empty(), Seq::<Seq<char>>::empty())
            =~= Seq::<char>::empty());
    }
    while i < chars.len()
        invariant
            i <= chars@.len() == bopo_parts@.len(),
            pvs == views_of(bopo_parts@),
            out@ == render_groups(chars@.subrange(0, i as int), pvs.subrange(0, i as int)),
        decreases chars@.len() - i,
    {
        let c = chars[i];
        let part = &bopo_parts[i];
        let ghost p = pvs[i as int];
        let ghost out0 = out@;
        assert(p == part@);
        push_ruby_open(&mut out);
        out.push(c);
        push_rt_open(&mut out);
        if part.len() > 0 && is_tone_marker(part[part.len() - 1]) {
            let base = sub_vec(part, 0, part.len() - 1);
            proof {
                assert(base@ =~= base_of(p));
            }
            push_all(&mut out, &base);
            push_rt_close(&mut out);
            push_rt_open(&mut out);
            out.push(part[part.len() - 1]);
            push_rt_close(&mut out);
            push_ruby_close(&mut out);
            proof {
                assert(mark_of(p) == Some(p.last()));
                assert(out@ =~= out0 + render_group(c, p));
            }
        } else {
            push_all(&mut out, part);
            push_rt_close(&mut out);
            push_ruby_close(&mut out);
            proof {
                assert(mark_of(p) is None);
                assert(out@ =~= out0 + render_group(c, p));
            }
        }
        proof {
            lemma_render_groups_push(
                chars@.subrange(0, i as int),
                pvs.subrange(0, i as int),
                chars@[i as int],
                p,
            );
            assert(chars@.subrange(0, i as int).push(chars@[i as int]) =~= chars@.subrange(
                0,
                i + 1,
            ));
            assert(pvs.subrange(0, i as int).push(p) =~= pvs.subrange(0, i + 1));
        }
        i = i + 1;
    }
    proof {
        assert(chars@.subrange(0, chars@.len() as int) =~= chars@);
        assert(pvs.subrange(0, pvs.len() as int) =~= pvs);
    }
    out
}

/// The annotation of a sequence of segments: each segment transformed on
/// its own, in order.
pub open spec fn annotate_all(segs: Seq<Seq<char>>, es: Seq<(Seq<char>, Seq<char>)>) -> Seq<char>
    decreases segs.len(),
{
    if segs.len() == 0 {
        Seq::empty()
    } else {
        transform_segment_spec(segs[0], es) + annotate_all(segs.drop_first(), es)
    }
}

pub proof fn lemma_annotate_all_push(
    segs: Seq<Seq<char>>,
    s: Seq<char>,
    es: Seq<(Seq<char>, Seq<char>)>,
)
    ensures
        annotate_all(segs.push(s), es) == annotate_all(segs, es) + transform_segment_spec(s, es),
    decreases segs.len(),
{
    if segs.len() == 0 {
        assert(segs.push(s).drop_first() =~= Seq::<Seq<char>>::empty());
        assert(annotate_all(Seq::<Seq<char>>::empty(), es) =~= Seq::<char>::empty());
        assert(annotate_all(segs.push(s), es) =~= transform_segment_spec(s, es)
            + Seq::<char>::empty());
        assert(annotate_all(segs.push(s), es) =~= annotate_all(segs, es) + transform_segment_spec(
            s,
            es,
        ));
    } else {
        assert(segs.push(s).drop_first() =~= segs.drop_first().push(s));
        lemma_annotate_all_push(segs.drop_first(), s, es);
        assert(annotate_all(segs.push(s), es) =~= annotate_all(segs, es) + transform_segment_spec(
            s,
            es,
        ));
    }
}

/// Annotate one segment: pass it through unchanged unless it has a Han
/// character, the dictionary holds the whole segment, and the entry's part
/// count equals the segment's character count.
pub fn transform_segment(segment: &Vec<char>, dict: &Dictionary) -> (r: Vec<char>)
    ensures
        r@ == transform_segment_spec(segment@, dict@),
{
    if !has_han(segment) {
        return copy_vec(segment);
    }
    match dict.get(segment) {
        None => copy_vec(segment),
        Some(phon) => {
            let parts = split_vec(phon, ' ');
            if parts.len() == segment.len() {
                let cs = copy_vec(segment);
                synthesize_char_and_bopo(cs, parts)
            } else {
                copy_vec(segment)
            }
        },
    }
}

/// `ann` is a possible annotation of `text`: for some segmentation whose
/// pieces concatenate back to `text`, it is exactly the per-segment
/// annotation.
pub open spec fn valid_annotation(
    text: Seq<char>,
    ann: Seq<char>,
    es: Seq<(Seq<char>, Seq<char>)>,
) -> bool {
    exists|segs: Seq<Seq<char>>| concat_all(segs) == text && ann == annotate_all(segs, es)
}

/// Annotate a run of text: cut it into segments and transform each, so
/// that dictionary phrases are annotated and everything else passes
/// through. Text without a Han character is returned unchanged. Whatever
/// segmentation the segmenter chose, the segments concatenate back to the
/// input and the result is exactly their per-segment annotation.
pub fn annotate_text(cs: &Vec<char>, dict: &Dictionary, seg: &Segmenter) -> (r: Vec<char>)
    ensures
        !contains_han(cs@) ==> r@ == cs@,
        valid_annotation(cs@, r@, dict@),
{
    if has_han(cs) {
        let segs = seg.cut(cs);
        let ghost svs = views_of(segs@);
        let mut out: Vec<char> = Vec::new();
        let mut i: usize = 0;
        proof {
            assert(annotate_all(svs.subrange(0, 0), dict@) =~= Seq::<char>::empty());
        }
        while i < segs.len()
            invariant
                i <= segs@.len(),
                svs == views_of(segs@),
                out@ == annotate_all(svs.subrange(0, i as int), dict@),
            decreases segs@.len() - i,
        {
            let t = transform_segment(&segs[i], dict);
            push_all(&mut out, &t);
            proof {
                lemma_annotate_all_push(svs.subrange(0, i as int), svs[i as int], dict@);
                assert(svs.subrange(0, i as int).push(svs[i as int]) =~= svs.subrange(0, i + 1));
            }
            i = i + 1;
        }
        proof {
            assert(svs.subrange(0, svs.len() as int) =~= svs);
            assert(concat_all(svs) == cs@ && out@ == annotate_all(svs, dict@));
        }
        out
    } else {
        let r = copy_vec(cs);
        proof {
            let segs = seq![cs@];
            assert(segs.drop_first() =~= Seq::<Seq<char>>::empty());
            assert(concat_all(Seq::<Seq<char>>::empty()) =~= Seq::<char>::empty());
            assert(concat_all(segs) =~= cs@);
            assert(annotate_all(Seq::<Seq<char>>::empty(), dict@) =~= Seq::<char>::empty());
            assert(annotate_all(segs, dict@) =~= transform_segment_spec(cs@, dict@));
            assert(transform_segment_spec(cs@, dict@) == cs@);
            assert(concat_all(segs) == cs@ && r@ == annotate_all(segs, dict@));
        }
        r
    }
}

/// Annotate a run of text, as `annotate_text` does, from and to a string.
pub fn insert_bopomofo(text: &str, dict: &Dictionary, seg: &Segmenter) -> (r: String)
    ensures
        !contains_han(text@) ==> r@ == text@,
        valid_annotation(text@, r@, dict@),
{
    let cs = chars_of(text);
    let out = annotate_text(&cs, dict, seg);
    string_of(&out)
}

} // verus!
