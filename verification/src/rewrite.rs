use vstd::prelude::*;
use crate::annotate::{annotate_text, valid_annotation};
use crate::chars::{has_prefix, find0, lemma_find0_bounds, find_char, sub_vec, copy_vec, push_all};
use crate::dict::Dictionary;
use crate::segment::Segmenter;
use crate::strutil::{chars_of, string_of};
use crate::url::{
    RewriteConfig, is_ws, leading_ws, lemma_leading_ws_bound, rewrite_href_spec, rewrite_src_spec,
    rewrite_srcset_spec, rewrite_href, rewrite_src, rewrite_srcset,
};

verus! {

// ---------------------------------------------------------------------------
// Scanning the token stream
// ---------------------------------------------------------------------------

pub open spec fn is_ascii_alpha(c: char) -> bool {
    ('a' <= c && c <= 'z') || ('A' <= c && c <= 'Z')
}

fn ascii_alpha(c: char) -> (r: bool)
    ensures
        r == is_ascii_alpha(c),
{
    ('a' <= c && c <= 'z') || ('A' <= c && c <= 'Z')
}

/// The remaining input begins a markup construct: `<` followed by a tag
/// name, `/`, `!` or `?`. A lone `<` before anything else is text.
pub open spec fn is_construct_start(s: Seq<char>) -> bool {
    s.len() >= 2 && s[0] == '<' && (is_ascii_alpha(s[1]) || s[1] == '/' || s[1] == '!' || s[1]
        == '?')
}

fn construct_start(v: &Vec<char>, i: usize) -> (r: bool)
    requires
        i <= v@.len(),
    ensures
        r == is_construct_start(v@.skip(i as int)),
{
    if i < v.len() && i + 1 < v.len() && v[i] == '<' {
        let c = v[i + 1];
        ascii_alpha(c) || c == '/' || c == '!' || c == '?'
    } else {
        false
    }
}

/// The length of the text token at the head of the remaining input.
pub open spec fn text_len(s: Seq<char>) -> int
    decreases s.len(),
{
    if s.len() == 0 {
        0
    } else if is_construct_start(s) {
        0
    } else {
        1 + text_len(s.drop_first())
    }
}

pub proof fn lemma_text_len_bound(s: Seq<char>)
    ensures
        0 <= text_len(s) <= s.len(),
    decreases s.len(),
{
    if s.len() > 0 && !is_construct_start(s) {
        lemma_text_len_bound(s.drop_first());
    }
}

/// End of the text token that starts at `i`, as an absolute index.
fn text_end(v: &Vec<char>, i: usize) -> (r: usize)
    requires
        i <= v@.len(),
    ensures
        r - i == text_len(v@.skip(i as int)),
        i <= r <= v@.len(),
{
    let mut j: usize = i;
    proof {
        assert(v@.skip(i as int).skip(0) =~= v@.skip(i as int));
    }
    while j < v.len()
        invariant
            i <= j <= v@.len(),
            text_len(v@.skip(i as int)) == (j - i) + text_len(v@.skip(j as int)),
        decreases v@.len() - j,
    {
        let ghost rest = v@.skip(j as int);
        if construct_start(v, j) {
            assert(text_len(rest) == 0);
            proof {
                lemma_text_len_bound(v@.skip(i as int));
            }
            return j;
        }
        proof {
            assert(rest.len() > 0);
            assert(rest.drop_first() =~= v@.skip(j + 1));
            assert(text_len(rest) == 1 + text_len(v@.skip(j + 1)));
        }
        j = j + 1;
    }
    assert(v@.skip(j as int) =~= Seq::<char>::empty());
    j
}

/// First index at which `m` occurs as a sub-sequence of `s` (or `s.len()`
/// when, `m` being nonempty, it does not occur).
pub open spec fn find_sub(s: Seq<char>, m: Seq<char>) -> int
    decreases s.len(),
{
    if has_prefix(s, m) {
        0
    } else if s.len() == 0 {
        0
    } else {
        1 + find_sub(s.drop_first(), m)
    }
}

pub proof fn lemma_find_sub_bound(s: Seq<char>, m: Seq<char>)
    ensures
        0 <= find_sub(s, m) <= s.len(),
    decreases s.len(),
{
    if !has_prefix(s, m) && s.len() > 0 {
        lemma_find_sub_bound(s.drop_first(), m);
    }
}

/// Does `m` stand at position `j` of `v`?
pub(crate) fn prefix_at(v: &Vec<char>, j: usize, m: &Vec<char>) -> (r: bool)
    requires
        j <= v@.len(),
    ensures
        r == has_prefix(v@.skip(j as int), m@),
{
    let ghost rest = v@.skip(j as int);
    if v.len() - j < m.len() {
        assert(!has_prefix(rest, m@));
        return false;
    }
    let mut k: usize = 0;
    while k < m.len()
        invariant
            k <= m@.len() <= v@.len() - j,
            j <= v@.len(),
            rest == v@.skip(j as int),
            forall|t: int| 0 <= t < k ==> rest[t] == m@[t],
        decreases m@.len() - k,
    {
        let n = v.len();
        assert(j + k < n);
        if v[j + k] != m[k] {
            assert(rest[k as int] != m@[k as int]);
            assert(rest.subrange(0, m@.len() as int)[k as int] == rest[k as int]);
            return false;
        }
        assert(rest[k as int] == v@[j + k]);
        k = k + 1;
    }
    assert(rest.subrange(0, m@.len() as int) =~= m@);
    true
}

/// Find the first occurrence of `m` in `v` at or after `from`.
fn find_sub_at(v: &Vec<char>, from: usize, m: &Vec<char>) -> (r: usize)
    requires
        from <= v@.len(),
        m@.len() >= 1,
    ensures
        from <= r <= v@.len(),
        r - from == find_sub(v@.skip(from as int), m@),
{
    let mut j: usize = from;
    proof {
        assert(v@.skip(from as int).skip(0) =~= v@.skip(from as int));
    }
    while j < v.len()
        invariant
            from <= j <= v@.len(),
            m@.len() >= 1,
            find_sub(v@.skip(from as int), m@) == (j - from) + find_sub(v@.skip(j as int), m@),
        decreases v@.len() - j,
    {
        let ghost rest = v@.skip(j as int);
        if prefix_at(v, j, m) {
            assert(find_sub(rest, m@) == 0);
            proof {
                lemma_find_sub_bound(v@.skip(from as int), m@);
            }
            return j;
        }
        proof {
            assert(rest.len() > 0);
            assert(rest.drop_first() =~= v@.skip(j + 1));
            assert(find_sub(rest, m@) == 1 + find_sub(v@.skip(j + 1), m@));
        }
        j = j + 1;
    }
    proof {
        assert(v@.skip(j as int) =~= Seq::<char>::empty());
        assert(!has_prefix(Seq::<char>::empty(), m@));
    }
    j
}

/// A character that may stand in a tag or attribute name.
pub open spec fn is_name_char(c: char) -> bool {
    !(is_ws(c) || c == '/' || c == '>' || c == '=' || c == '"' || c == '\'' || c == '<')
}

fn name_char(c: char) -> (r: bool)
    ensures
        r == is_name_char(c),
{
    !(c == ' ' || c == '\t' || c == '\n' || c == '\r' || c == '\u{0c}' || c == '/' || c == '>'
        || c == '=' || c == '"' || c == '\'' || c == '<')
}

/// The length of the name run at the head of the remaining input.
pub open spec fn name_len(s: Seq<char>) -> int
    decreases s.len(),
{
    if s.len() > 0 && is_name_char(s[0]) {
        1 + name_len(s.drop_first())
    } else {
        0
    }
}

pub proof fn lemma_name_len_bound(s: Seq<char>)
    ensures
        0 <= name_len(s) <= s.len(),
    decreases s.len(),
{
    if s.len() > 0 && is_name_char(s[0]) {
        lemma_name_len_bound(s.drop_first());
    }
}

/// End of the name run that starts at `i`, as an absolute index.
fn name_end(v: &Vec<char>, i: usize) -> (r: usize)
    requires
        i <= v@.len(),
    ensures
        r - i == name_len(v@.skip(i as int)),
        i <= r <= v@.len(),
{
    let mut j: usize = i;
    proof {
        assert(v@.skip(i as int).skip(0) =~= v@.skip(i as int));
    }
    while j < v.len()
        invariant
            i <= j <= v@.len(),
            name_len(v@.skip(i as int)) == (j - i) + name_len(v@.skip(j as int)),
            forall|t: int| i <= t < j ==> is_name_char(v@[t]),
        decreases v@.len() - j,
    {
        let ghost rest = v@.skip(j as int);
        if !name_char(v[j]) {
            assert(rest[0] == v@[j as int]);
            assert(name_len(rest) == 0);
            proof {
                lemma_name_len_bound(v@.skip(i as int));
            }
            return j;
        }
        proof {
            assert(rest[0] == v@[j as int]);
            assert(rest.drop_first() =~= v@.skip(j + 1));
            assert(name_len(rest) == 1 + name_len(v@.skip(j + 1)));
        }
        j = j + 1;
    }
    assert(v@.skip(j as int) =~= Seq::<char>::empty());
    j
}

/// Scan the inside of a start tag (the part after `<`), respecting quoted
/// attribute values, up to and including the closing `>`. Yields whether
/// the tag is terminated, and how many characters were scanned.
pub open spec fn scan_tag_rest(s: Seq<char>) -> (bool, int)
    decreases s.len(),
    via scan_tag_rest_termination
{
    if s.len() == 0 {
        (false, 0)
    } else if s[0] == '>' {
        (true, 1)
    } else if s[0] == '"' || s[0] == '\'' {
        let q = find0(s.drop_first(), s[0]);
        if q < s.drop_first().len() {
            let r = scan_tag_rest(s.skip(q + 2));
            (r.0, q + 2 + r.1)
        } else {
            (false, s.len() as int)
        }
    } else {
        let r = scan_tag_rest(s.drop_first());
        (r.0, 1 + r.1)
    }
}

#[via_fn]
proof fn scan_tag_rest_termination(s: Seq<char>) {
    if s.len() > 0 && (s[0] == '"' || s[0] == '\'') {
        lemma_find0_bounds(s.drop_first(), s[0]);
    }
}

pub proof fn lemma_scan_tag_rest_bound(s: Seq<char>)
    ensures
        0 <= scan_tag_rest(s).1 <= s.len(),
    decreases s.len(),
{
    if s.len() == 0 {
    } else if s[0] == '>' {
    } else if s[0] == '"' || s[0] == '\'' {
        lemma_find0_bounds(s.drop_first(), s[0]);
        let q = find0(s.drop_first(), s[0]);
        if q < s.drop_first().len() {
            lemma_scan_tag_rest_bound(s.skip(q + 2));
        }
    } else {
        lemma_scan_tag_rest_bound(s.drop_first());
    }
}

/// Scan a start tag's inside from absolute position `i`, as
/// `scan_tag_rest` describes.
fn scan_tag(v: &Vec<char>, i: usize) -> (r: (bool, usize))
    requires
        i <= v@.len(),
    ensures
        scan_tag_rest(v@.skip(i as int)).0 == r.0,
        scan_tag_rest(v@.skip(i as int)).1 == r.1 - i,
        i <= r.1 <= v@.len(),
{
    let mut j: usize = i;
    proof {
        assert(v@.skip(i as int).skip(0) =~= v@.skip(i as int));
    }
    while j < v.len()
        invariant
            i <= j <= v@.len(),
            scan_tag_rest(v@.skip(i as int)).0 == scan_tag_rest(v@.skip(j as int)).0,
            scan_tag_rest(v@.skip(i as int)).1 == (j - i) + scan_tag_rest(v@.skip(j as int)).1,
        decreases v@.len() - j,
    {
        let ghost rest = v@.skip(j as int);
        let c = v[j];
        assert(rest[0] == v@[j as int]);
        if c == '>' {
            assert(scan_tag_rest(rest) == (true, 1int));
            return (true, j + 1);
        } else if c == '"' || c == '\'' {
            proof {
                assert(rest.drop_first() =~= v@.skip(j + 1));
            }
            let k = find_char(v, j + 1, c);
            proof {
                lemma_find0_bounds(rest.drop_first(), c);
            }
            if k == v.len() {
                proof {
                    assert(find0(rest.drop_first(), c) == v@.len() - (j + 1));
                    assert(scan_tag_rest(rest) == (false, rest.len() as int));
                }
                return (false, v.len());
            } else {
                proof {
                    let q = find0(rest.drop_first(), c);
                    assert(q == k - (j + 1));
                    assert(q < rest.drop_first().len());
                    assert(rest.skip(q + 2) =~= v@.skip(k + 1));
                    assert(scan_tag_rest(rest).0 == scan_tag_rest(v@.skip(k + 1)).0);
                    assert(scan_tag_rest(rest).1 == (k + 1 - j) + scan_tag_rest(
                        v@.skip(k + 1),
                    ).1);
                }
                j = k + 1;
            }
        } else {
            proof {
                assert(rest.drop_first() =~= v@.skip(j + 1));
            }
            j = j + 1;
        }
    }
    proof {
        assert(v@.skip(j as int) =~= Seq::<char>::empty());
        assert(scan_tag_rest(Seq::<char>::empty()) == (false, 0int));
    }
    (false, j)
}

// ---------------------------------------------------------------------------
// Attribute rewriting inside a start tag
// ---------------------------------------------------------------------------

/// The rewriter's configuration, as character sequences.
pub struct RwCfg {
    pub host: Seq<char>,
    pub wiki: Seq<char>,
    pub lang: Seq<char>,
    pub style: Seq<char>,
}

impl View for RewriteConfig {
    type V = RwCfg;

    open spec fn view(&self) -> RwCfg {
        RwCfg {
            host: self.host@,
            wiki: self.wiki_prefix@,
            lang: self.lang_prefix@,
            style: self.style@,
        }
    }
}

pub open spec fn href_name() -> Seq<char> {
    seq!['h', 'r', 'e', 'f']
}

pub open spec fn src_name() -> Seq<char> {
    seq!['s', 'r', 'c']
}

pub open spec fn srcset_name() -> Seq<char> {
    seq!['s', 'r', 'c', 's', 'e', 't']
}

pub open spec fn head_name() -> Seq<char> {
    seq!['h', 'e', 'a', 'd']
}

pub open spec fn body_name() -> Seq<char> {
    seq!['b', 'o', 'd', 'y']
}

/// `a` is `b` or its ASCII upper-case form; `b` is a lower-case reference.
pub open spec fn ascii_lower_eq(a: char, b: char) -> bool {
    a == b || ('A' <= a && a <= 'Z' && a as u32 + 32 == b as u32)
}

/// The name equals the lower-case reference `m`, ASCII case ignored.
pub open spec fn name_is(name: Seq<char>, m: Seq<char>) -> bool {
    name.len() == m.len() && (forall|i: int| 0 <= i < m.len() ==> ascii_lower_eq(name[i], m[i]))
}

fn lower_eq(a: char, b: char) -> (r: bool)
    ensures
        r == ascii_lower_eq(a, b),
{
    a == b || ('A' <= a && a <= 'Z' && (a as u32) + 32 == (b as u32))
}

fn name_is_exec(name: &Vec<char>, m: &Vec<char>) -> (r: bool)
    ensures
        r == name_is(name@, m@),
{
    if name.len() != m.len() {
        return false;
    }
    let mut i: usize = 0;
    while i < m.len()
        invariant
            i <= m@.len() == name@.len(),
            forall|k: int| 0 <= k < i ==> ascii_lower_eq(name@[k], m@[k]),
        decreases m@.len() - i,
    {
        if !lower_eq(name[i], m[i]) {
            return false;
        }
        i = i + 1;
    }
    true
}

fn vec_href() -> (v: Vec<char>)
    ensures
        v@ == href_name(),
{
    let mut v: Vec<char> = Vec::new();
    v.push('h');
    v.push('r');
    v.push('e');
    v.push('f');
    assert(v@ =~= href_name());
    v
}

fn vec_src() -> (v: Vec<char>)
    ensures
        v@ == src_name(),
{
    let mut v: Vec<char> = Vec::new();
    v.push('s');
    v.push('r');
    v.push('c');
    assert(v@ =~= src_name());
    v
}

fn vec_srcset() -> (v: Vec<char>)
    ensures
        v@ == srcset_name(),
{
    let mut v: Vec<char> = Vec::new();
    v.push('s');
    v.push('r');
    v.push('c');
    v.push('s');
    v.push('e');
    v.push('t');
    assert(v@ =~= srcset_name());
    v
}

fn vec_head() -> (v: Vec<char>)
    ensures
        v@ == head_name(),
{
    let mut v: Vec<char> = Vec::new();
    v.push('h');
    v.push('e');
    v.push('a');
    v.push('d');
    assert(v@ =~= head_name());
    v
}

fn vec_body() -> (v: Vec<char>)
    ensures
        v@ == body_name(),
{
    let mut v: Vec<char> = Vec::new();
    v.push('b');
    v.push('o');
    v.push('d');
    v.push('y');
    assert(v@ =~= body_name());
    v
}

/// What an attribute value becomes: rewritten under the rule its
/// (case-insensitive) name selects, otherwise unchanged.
pub open spec fn rewritten_value(name: Seq<char>, value: Seq<char>, cfg: RwCfg) -> Seq<char> {
    if name_is(name, href_name()) {
        rewrite_href_spec(value, cfg.host, cfg.wiki, cfg.lang)
    } else if name_is(name, src_name()) {
        rewrite_src_spec(value, cfg.host)
    } else if name_is(name, srcset_name()) {
        rewrite_srcset_spec(value, cfg.host)
    } else {
        value
    }
}

fn rewrite_value_exec(name: &Vec<char>, value: &Vec<char>, cfg: &RewriteConfig) -> (r: Vec<char>)
    ensures
        r@ == rewritten_value(name@, value@, cfg@),
{
    if name_is_exec(name, &vec_href()) {
        rewrite_href(value, cfg)
    } else if name_is_exec(name, &vec_src()) {
        rewrite_src(value, cfg)
    } else if name_is_exec(name, &vec_srcset()) {
        rewrite_srcset(value, cfg)
    } else {
        copy_vec(value)
    }
}

/// Length of an unquoted attribute value: up to whitespace or `>`.
pub open spec fn unquoted_len(s: Seq<char>) -> int
    decreases s.len(),
{
    if s.len() > 0 && !(is_ws(s[0]) || s[0] == '>') {
        1 + unquoted_len(s.drop_first())
    } else {
        0
    }
}

pub proof fn lemma_unquoted_len_bound(s: Seq<char>)
    ensures
        0 <= unquoted_len(s) <= s.len(),
    decreases s.len(),
{
    if s.len() > 0 && !(is_ws(s[0]) || s[0] == '>') {
        lemma_unquoted_len_bound(s.drop_first());
    }
}

fn unquoted_end(v: &Vec<char>, i: usize) -> (r: usize)
    requires
        i <= v@.len(),
    ensures
        r - i == unquoted_len(v@.skip(i as int)),
        i <= r <= v@.len(),
{
    let mut j: usize = i;
    proof {
        assert(v@.skip(i as int).skip(0) =~= v@.skip(i as int));
    }
    while j < v.len()
        invariant
            i <= j <= v@.len(),
            unquoted_len(v@.skip(i as int)) == (j - i) + unquoted_len(v@.skip(j as int)),
        decreases v@.len() - j,
    {
        let ghost rest = v@.skip(j as int);
        let c = v[j];
        assert(rest[0] == v@[j as int]);
        if c == ' ' || c == '\t' || c == '\n' || c == '\r' || c == '\u{0c}' || c == '>' {
            assert(unquoted_len(rest) == 0);
            proof {
                lemma_unquoted_len_bound(v@.skip(i as int));
            }
            return j;
        }
        proof {
            assert(rest.drop_first() =~= v@.skip(j + 1));
        }
        j = j + 1;
    }
    assert(v@.skip(j as int) =~= Seq::<char>::empty());
    j
}

/// Leading whitespace at or after `i`, as an absolute end index.
fn ws_end(v: &Vec<char>, i: usize) -> (r: usize)
    requires
        i <= v@.len(),
    ensures
        r - i == leading_ws(v@.skip(i as int)),
        i <= r <= v@.len(),
{
    let mut j: usize = i;
    proof {
        assert(v@.skip(i as int).skip(0) =~= v@.skip(i as int));
    }
    while j < v.len()
        invariant
            i <= j <= v@.len(),
            leading_ws(v@.skip(i as int)) == (j - i) + leading_ws(v@.skip(j as int)),
        decreases v@.len() - j,
    {
        let ghost rest = v@.skip(j as int);
        let c = v[j];
        assert(rest[0] == v@[j as int]);
        if !(c == ' ' || c == '\t' || c == '\n' || c == '\r' || c == '\u{0c}') {
            assert(leading_ws(rest) == 0);
            proof {
                lemma_leading_ws_bound(v@.skip(i as int));
            }
            return j;
        }
        proof {
            assert(rest.drop_first() =~= v@.skip(j + 1));
        }
        j = j + 1;
    }
    assert(v@.skip(j as int) =~= Seq::<char>::empty());
    j
}

/// The whole start tag with the values of its href, src and srcset
/// attributes rewritten and everything else copied verbatim. Attributes
/// are `name`, optionally followed by `=` and a quoted or unquoted value,
/// whitespace allowed around the `=`; an unterminated quoted value leaves
/// the rest of the tag untouched.
pub open spec fn rw_attrs(t: Seq<char>, cfg: RwCfg) -> Seq<char>
    decreases t.len(),
    via rw_attrs_termination
{
    if t.len() == 0 {
        Seq::empty()
    } else if !is_name_char(t[0]) {
        seq![t[0]] + rw_attrs(t.drop_first(), cfg)
    } else {
        let n = name_len(t);
        let p = n + leading_ws(t.skip(n));
        if p < t.len() && t[p] == '=' {
            let vs = p + 1 + leading_ws(t.skip(p + 1));
            if vs < t.len() && (t[vs] == '"' || t[vs] == '\'') {
                let q = find0(t.skip(vs + 1), t[vs]);
                if q < t.len() - (vs + 1) {
                    let ve = vs + 1 + q;
                    t.take(vs + 1) + rewritten_value(t.take(n), t.subrange(vs + 1, ve), cfg)
                        + rw_attrs(t.skip(ve), cfg)
                } else {
                    t
                }
            } else if vs < t.len() {
                let vl = unquoted_len(t.skip(vs));
                t.take(vs) + rewritten_value(t.take(n), t.subrange(vs, vs + vl), cfg) + rw_attrs(
                    t.skip(vs + vl),
                    cfg,
                )
            } else {
                t
            }
        } else {
            t.take(n) + rw_attrs(t.skip(n), cfg)
        }
    }
}

#[via_fn]
proof fn rw_attrs_termination(t: Seq<char>, cfg: RwCfg) {
    if t.len() > 0 && is_name_char(t[0]) {
        lemma_name_len_bound(t);
        lemma_name_len_bound(t.drop_first());
        let n = name_len(t);
        assert(n == 1 + name_len(t.drop_first()));
        assert(n >= 1);
        lemma_leading_ws_bound(t.skip(n));
        let p = n + leading_ws(t.skip(n));
        if p < t.len() && t[p] == '=' {
            lemma_leading_ws_bound(t.skip(p + 1));
            let vs = p + 1 + leading_ws(t.skip(p + 1));
            if vs < t.len() && (t[vs] == '"' || t[vs] == '\'') {
                lemma_find0_bounds(t.skip(vs + 1), t[vs]);
            } else if vs < t.len() {
                lemma_unquoted_len_bound(t.skip(vs));
            }
        }
    }
}

/// Rewrite the attribute values of one start tag, as `rw_attrs` describes.
#[verifier::rlimit(100)]
fn rw_attrs_exec(t: &Vec<char>, cfg: &RewriteConfig) -> (r: Vec<char>)
    ensures
        r@ == rw_attrs(t@, cfg@),
{
    let mut out: Vec<char> = Vec::new();
    let mut pos: usize = 0;
    proof {
        assert(t@.skip(0) =~= t@);
    }
    while pos < t.len()
        invariant
            pos <= t@.len(),
            rw_attrs(t@, cfg@) == out@ + rw_attrs(t@.skip(pos as int), cfg@),
        decreases t@.len() - pos,
    {
        let ghost s = t@.skip(pos as int);
        assert(s[0] == t@[pos as int]);
        if !name_char(t[pos]) {
            out.push(t[pos]);
            proof {
                assert(s.drop_first() =~= t@.skip(pos + 1));
                assert(rw_attrs(s, cfg@) == seq![s[0]] + rw_attrs(t@.skip(pos + 1), cfg@));
            }
            pos = pos + 1;
        } else {
            let nend = name_end(t, pos);
            let ghost n = nend - pos;
            proof {
                assert(n == name_len(s));
                assert(n >= 1) by {
                    assert(is_name_char(s[0]));
                    lemma_name_len_bound(s.drop_first());
                    assert(name_len(s) == 1 + name_len(s.drop_first()));
                }
            }
            let pws = ws_end(t, nend);
            proof {
                assert(t@.skip(nend as int) =~= s.skip(n));
                assert(pws - nend == leading_ws(s.skip(n)));
                assert(pws - pos == n + leading_ws(s.skip(n)));
            }
            let ghost p = pws - pos;
            if pws < t.len() && t[pws] == '=' {
                assert(s[p] == t@[pws as int]);
                let vws = ws_end(t, pws + 1);
                proof {
                    assert(t@.skip(pws + 1) =~= s.skip(p + 1));
                    assert(vws - pos == p + 1 + leading_ws(s.skip(p + 1)));
                }
                let ghost vs = vws - pos;
                if vws < t.len() && (t[vws] == '"' || t[vws] == '\'') {
                    assert(s[vs] == t@[vws as int]);
                    let quote = t[vws];
                    let qk = find_char(t, vws + 1, quote);
                    proof {
                        assert(t@.skip(vws + 1) =~= s.skip(vs + 1));
                        assert(qk - (vws + 1) == find0(s.skip(vs + 1), quote));
                    }
                    let ghost q = qk - (vws + 1);
                    if qk < t.len() {
                        // terminated quoted value
                        let ghost ve = vs + 1 + q;
                        let name = sub_vec(t, pos, nend);
                        let value = sub_vec(t, vws + 1, qk);
                        let lead = sub_vec(t, pos, vws + 1);
                        let rewritten = rewrite_value_exec(&name, &value, cfg);
                        push_all(&mut out, &lead);
                        push_all(&mut out, &rewritten);
                        proof {
                            assert(q < s.len() - (vs + 1));
                            assert(name@ =~= s.take(n));
                            assert(value@ =~= s.subrange(vs + 1, ve));
                            assert(lead@ =~= s.take(vs + 1));
                            assert(s.skip(ve) =~= t@.skip(qk as int));
                            assert(rw_attrs(s, cfg@) == s.take(vs + 1) + rewritten_value(
                                s.take(n),
                                s.subrange(vs + 1, ve),
                                cfg@,
                            ) + rw_attrs(t@.skip(qk as int), cfg@));
                        }
                        pos = qk;
                    } else {
                        // unterminated quoted value: the rest stands as it is
                        let rest = sub_vec(t, pos, t.len());
                        push_all(&mut out, &rest);
                        proof {
                            assert(q >= s.len() - (vs + 1));
                            assert(rw_attrs(s, cfg@) == s);
                            assert(rest@ =~= s);
                            assert(t@.skip(t@.len() as int) =~= Seq::<char>::empty());
                            assert(rw_attrs(Seq::<char>::empty(), cfg@) =~= Seq::<char>::empty());
                        }
                        pos = t.len();
                    }
                } else if vws < t.len() {
                    // unquoted value
                    let vend = unquoted_end(t, vws);
                    proof {
                        assert(t@.skip(vws as int) =~= s.skip(vs));
                        assert(vend - vws == unquoted_len(s.skip(vs)));
                    }
                    let ghost vl = vend - vws;
                    let name = sub_vec(t, pos, nend);
                    let value = sub_vec(t, vws, vend);
                    let lead = sub_vec(t, pos, vws);
                    let rewritten = rewrite_value_exec(&name, &value, cfg);
                    push_all(&mut out, &lead);
                    push_all(&mut out, &rewritten);
                    proof {
                        assert(name@ =~= s.take(n));
                        assert(value@ =~= s.subrange(vs, vs + vl));
                        assert(lead@ =~= s.take(vs));
                        assert(s.skip(vs + vl) =~= t@.skip(vend as int));
                        assert(rw_attrs(s, cfg@) == s.take(vs) + rewritten_value(
                            s.take(n),
                            s.subrange(vs, vs + vl),
                            cfg@,
                        ) + rw_attrs(t@.skip(vend as int), cfg@));
                    }
                    pos = vend;
                } else {
                    // '=' at the very end of the tag text
                    let rest = sub_vec(t, pos, t.len());
                    push_all(&mut out, &rest);
                    proof {
                        assert(vs >= s.len());
                        assert(rw_attrs(s, cfg@) == s);
                        assert(rest@ =~= s);
                        assert(t@.skip(t@.len() as int) =~= Seq::<char>::empty());
                        assert(rw_attrs(Seq::<char>::empty(), cfg@) =~= Seq::<char>::empty());
                    }
                    pos = t.len();
                }
            } else {
                // a name with no value: copy it and go on
                let name = sub_vec(t, pos, nend);
                push_all(&mut out, &name);
                proof {
                    assert(if p < s.len() {
                        s[p] != '='
                    } else {
                        true
                    });
                    assert(name@ =~= s.take(n));
                    assert(s.skip(n) =~= t@.skip(nend as int));
                    assert(rw_attrs(s, cfg@) == s.take(n) + rw_attrs(t@.skip(nend as int), cfg@));
                }
                pos = nend;
            }
        }
    }
    proof {
        assert(t@.skip(t@.len() as int) =~= Seq::<char>::empty());
        assert(rw_attrs(Seq::<char>::empty(), cfg@) =~= Seq::<char>::empty());
    }
    out
}

// ---------------------------------------------------------------------------
// One step of the forward pass
// ---------------------------------------------------------------------------

/// The streaming cursor's state: whether the cursor stands inside the
/// body, inside the head, and whether the stylesheet was already injected.
#[derive(Clone, Copy)]
pub struct RwState {
    pub in_body: bool,
    pub in_head: bool,
    pub injected: bool,
}

pub open spec fn init_state() -> RwState {
    RwState { in_body: false, in_head: false, injected: false }
}

pub open spec fn comment_open_s() -> Seq<char> {
    seq!['<', '!', '-', '-']
}

pub open spec fn comment_close_s() -> Seq<char> {
    seq!['-', '-', '>']
}

fn vec_comment_open() -> (v: Vec<char>)
    ensures
        v@ == comment_open_s(),
{
    let mut v: Vec<char> = Vec::new();
    v.push('<');
    v.push('!');
    v.push('-');
    v.push('-');
    assert(v@ =~= comment_open_s());
    v
}

fn vec_comment_close() -> (v: Vec<char>)
    ensures
        v@ == comment_close_s(),
{
    let mut v: Vec<char> = Vec::new();
    v.push('-');
    v.push('-');
    v.push('>');
    assert(v@ =~= comment_close_s());
    v
}

/// Length of the comment token at the head of the input (which must begin
/// with the comment opener); an unterminated comment runs to the end.
pub open spec fn comment_token_len(s: Seq<char>) -> int {
    let j = find_sub(s.skip(4), comment_close_s());
    if j + 3 <= s.len() - 4 {
        4 + j + 3
    } else {
        s.len() as int
    }
}

/// One step of the forward pass over the remaining input `s`: how many
/// characters the next token takes, the state after it, and what it
/// emits. The flag is true when the token is body text, whose payload is
/// then the raw text to annotate; otherwise the payload is emitted as it
/// stands. Tag tokens have their href, src and srcset values rewritten;
/// an end tag of the head, met inside the head before any injection, is
/// preceded by the stylesheet; start and end tags of head and body move
/// the state.
pub open spec fn step_spec(s: Seq<char>, st: RwState, cfg: RwCfg) -> (int, RwState, bool, Seq<
    char,
>)
    recommends
        s.len() > 0,
{
    if !is_construct_start(s) {
        let n = text_len(s);
        (n, st, st.in_body, s.take(n))
    } else if s[1] == '!' || s[1] == '?' {
        if has_prefix(s, comment_open_s()) {
            let n = comment_token_len(s);
            (n, st, false, s.take(n))
        } else {
            let g = find0(s, '>');
            let n = if g < s.len() {
                g + 1
            } else {
                s.len() as int
            };
            (n, st, false, s.take(n))
        }
    } else if s[1] == '/' {
        let g = find0(s, '>');
        if g >= s.len() {
            (s.len() as int, st, false, s)
        } else {
            let n = g + 1;
            let name = s.skip(2).take(name_len(s.skip(2)));
            if name_is(name, head_name()) {
                if st.in_head && !st.injected {
                    (
                        n,
                        RwState { in_body: st.in_body, in_head: false, injected: true },
                        false,
                        cfg.style + s.take(n),
                    )
                } else {
                    (
                        n,
                        RwState { in_body: st.in_body, in_head: false, injected: st.injected },
                        false,
                        s.take(n),
                    )
                }
            } else if name_is(name, body_name()) {
                (
                    n,
                    RwState { in_body: false, in_head: st.in_head, injected: st.injected },
                    false,
                    s.take(n),
                )
            } else {
                (n, st, false, s.take(n))
            }
        }
    } else {
        let r = scan_tag_rest(s.drop_first());
        if !r.0 {
            (s.len() as int, st, false, s)
        } else {
            let n = 1 + r.1;
            let name = s.skip(1).take(name_len(s.skip(1)));
            let st2 = if name_is(name, head_name()) {
                RwState { in_body: st.in_body, in_head: true, injected: st.injected }
            } else if name_is(name, body_name()) {
                RwState { in_body: true, in_head: st.in_head, injected: st.injected }
            } else {
                st
            };
            (n, st2, false, rw_attrs(s.take(n), cfg))
        }
    }
}

/// Text met outside the body is emitted exactly as it stands, and moves
/// nothing: annotation is body-scoped.
pub proof fn lemma_nonbody_text_verbatim(s: Seq<char>, st: RwState, cfg: RwCfg)
    requires
        s.len() > 0,
        !is_construct_start(s),
        !st.in_body,
    ensures
        !step_spec(s, st, cfg).2,
        step_spec(s, st, cfg).3 == s.take(text_len(s)),
        step_spec(s, st, cfg).1 == st,
{
}

/// Text met inside the body is always handed to the annotator, as the raw
/// text of the token.
pub proof fn lemma_body_text_annotated(s: Seq<char>, st: RwState, cfg: RwCfg)
    requires
        s.len() > 0,
        !is_construct_start(s),
        st.in_body,
    ensures
        step_spec(s, st, cfg).2,
        step_spec(s, st, cfg).3 == s.take(text_len(s)),
{
}

/// Execute one step, exactly as `step_spec` describes.
#[verifier::rlimit(100)]
fn step_exec(v: &Vec<char>, i: usize, st: RwState, cfg: &RewriteConfig) -> (r: (
    usize,
    RwState,
    bool,
    Vec<char>,
))
    requires
        i < v@.len(),
    ensures
        ({
            let sp = step_spec(v@.skip(i as int), st, cfg@);
            &&& 1 <= r.0
            &&& i + r.0 <= v@.len()
            &&& r.0 as int == sp.0
            &&& r.1 == sp.1
            &&& r.2 == sp.2
            &&& r.3@ == sp.3
        }),
{
    let ghost s = v@.skip(i as int);
    if !construct_start(v, i) {
        let e = text_end(v, i);
        proof {
            lemma_text_len_bound(s.drop_first());
            assert(text_len(s) == 1 + text_len(s.drop_first()));
        }
        let chunk = sub_vec(v, i, e);
        proof {
            assert(chunk@ =~= s.take(e - i));
        }
        (e - i, st, st.in_body, chunk)
    } else {
        let vlen = v.len();
        assert(i + 2 <= vlen);
        let c1 = v[i + 1];
        assert(s[1] == c1);
        if c1 == '!' || c1 == '?' {
            if prefix_at(v, i, &vec_comment_open()) {
                proof {
                    assert(s.len() >= 4);
                    assert(i + 4 <= vlen);
                    assert(s.skip(4) =~= v@.skip(i + 4));
                }
                let close = vec_comment_close();
                let j = find_sub_at(v, i + 4, &close);
                let ghost jrel = find_sub(s.skip(4), comment_close_s());
                proof {
                    assert(jrel == j - (i + 4));
                }
                if j <= v.len() - 3 {
                    let chunk = sub_vec(v, i, j + 3);
                    proof {
                        assert(jrel + 3 <= s.len() - 4);
                        assert(comment_token_len(s) == j + 3 - i);
                        assert(chunk@ =~= s.take(j + 3 - i));
                    }
                    (j + 3 - i, st, false, chunk)
                } else {
                    let chunk = sub_vec(v, i, v.len());
                    proof {
                        assert(jrel + 3 > s.len() - 4);
                        assert(comment_token_len(s) == s.len());
                        assert(chunk@ =~= s.take(s.len() as int));
                    }
                    (v.len() - i, st, false, chunk)
                }
            } else {
                let g = find_char(v, i, '>');
                proof {
                    lemma_find0_bounds(s, '>');
                }
                if g < v.len() {
                    let chunk = sub_vec(v, i, g + 1);
                    proof {
                        assert(find0(s, '>') == g - i < s.len());
                        assert(chunk@ =~= s.take(g + 1 - i));
                    }
                    (g + 1 - i, st, false, chunk)
                } else {
                    let chunk = sub_vec(v, i, v.len());
                    proof {
                        assert(find0(s, '>') == g - i >= s.len());
                        assert(chunk@ =~= s.take(s.len() as int));
                        assert(s.take(s.len() as int) =~= s);
                    }
                    (v.len() - i, st, false, chunk)
                }
            }
        } else if c1 == '/' {
            let g = find_char(v, i, '>');
            proof {
                lemma_find0_bounds(s, '>');
            }
            if g == v.len() {
                let chunk = sub_vec(v, i, v.len());
                proof {
                    assert(find0(s, '>') >= s.len());
                    assert(chunk@ =~= s);
                }
                (v.len() - i, st, false, chunk)
            } else {
                let ne = name_end(v, i + 2);
                let name = sub_vec(v, i + 2, ne);
                let chunk = sub_vec(v, i, g + 1);
                proof {
                    assert(find0(s, '>') == g - i < s.len());
                    assert(s.skip(2) =~= v@.skip(i + 2));
                    assert(name@ =~= s.skip(2).take(name_len(s.skip(2))));
                    assert(chunk@ =~= s.take(g + 1 - i));
                }
                if name_is_exec(&name, &vec_head()) {
                    if st.in_head && !st.injected {
                        let mut payload = copy_vec(&cfg.style);
                        push_all(&mut payload, &chunk);
                        (
                            g + 1 - i,
                            RwState { in_body: st.in_body, in_head: false, injected: true },
                            false,
                            payload,
                        )
                    } else {
                        (
                            g + 1 - i,
                            RwState { in_body: st.in_body, in_head: false, injected: st.injected },
                            false,
                            chunk,
                        )
                    }
                } else if name_is_exec(&name, &vec_body()) {
                    (
                        g + 1 - i,
                        RwState { in_body: false, in_head: st.in_head, injected: st.injected },
                        false,
                        chunk,
                    )
                } else {
                    (g + 1 - i, st, false, chunk)
                }
            }
        } else {
            let sc = scan_tag(v, i + 1);
            proof {
                assert(s.drop_first() =~= v@.skip(i + 1));
            }
            if !sc.0 {
                let chunk = sub_vec(v, i, v.len());
                proof {
                    assert(chunk@ =~= s);
                }
                (v.len() - i, st, false, chunk)
            } else {
                let ghost n = 1 + scan_tag_rest(s.drop_first()).1;
                proof {
                    assert(n == sc.1 - i);
                    lemma_scan_tag_rest_bound(s.drop_first());
                }
                let tag = sub_vec(v, i, sc.1);
                let ne = name_end(v, i + 1);
                let name = sub_vec(v, i + 1, ne);
                proof {
                    assert(tag@ =~= s.take(n));
                    assert(s.skip(1) =~= v@.skip(i + 1));
                    assert(name@ =~= s.skip(1).take(name_len(s.skip(1))));
                }
                let st2 = if name_is_exec(&name, &vec_head()) {
                    RwState { in_body: st.in_body, in_head: true, injected: st.injected }
                } else if name_is_exec(&name, &vec_body()) {
                    RwState { in_body: true, in_head: st.in_head, injected: st.injected }
                } else {
                    st
                };
                let payload = rw_attrs_exec(&tag, cfg);
                (sc.1 - i, st2, false, payload)
            }
        }
    }
}

// ---------------------------------------------------------------------------
// The whole pass
// ---------------------------------------------------------------------------

/// The output of the forward pass over the remaining input, where `anns`
/// supplies, in order, the annotation emitted for each body-text token.
pub open spec fn run(s: Seq<char>, st: RwState, cfg: RwCfg, anns: Seq<Seq<char>>) -> Seq<char>
    decreases s.len(),
{
    if s.len() == 0 {
        Seq::empty()
    } else {
        let r = step_spec(s, st, cfg);
        if 1 <= r.0 <= s.len() {
            if r.2 {
                (if anns.len() > 0 {
                    anns[0]
                } else {
                    Seq::<char>::empty()
                }) + run(s.skip(r.0), r.1, cfg, anns.drop_first())
            } else {
                r.3 + run(s.skip(r.0), r.1, cfg, anns)
            }
        } else {
            Seq::empty()
        }
    }
}

/// The body-text tokens of the remaining input, in order: exactly the
/// runs of text that stand inside the body.
pub open spec fn body_texts(s: Seq<char>, st: RwState, cfg: RwCfg) -> Seq<Seq<char>>
    decreases s.len(),
{
    if s.len() == 0 {
        Seq::empty()
    } else {
        let r = step_spec(s, st, cfg);
        if 1 <= r.0 <= s.len() {
            if r.2 {
                seq![r.3] + body_texts(s.skip(r.0), r.1, cfg)
            } else {
                body_texts(s.skip(r.0), r.1, cfg)
            }
        } else {
            Seq::empty()
        }
    }
}

/// Rewrite a whole document in a single forward pass: href, src and
/// srcset attribute values rewritten, the stylesheet injected at the end
/// of the head, every body text token replaced by its annotation, and
/// everything else emitted exactly as it stands. The result is the run of
/// the pass under some per-token annotations, each a valid annotation of
/// that token's text.
#[verifier::rlimit(60)]
pub fn transform_page(body: String, cfg: &RewriteConfig, dict: &Dictionary, seg: &Segmenter) -> (r:
    String)
    ensures
        exists|anns: Seq<Seq<char>>|
            {
                let texts = body_texts(body@, init_state(), cfg@);
                &&& anns.len() == texts.len()
                &&& (forall|k: int|
                    0 <= k < texts.len() ==> valid_annotation(texts[k], anns[k], dict@))
                &&& r@ == #[trigger] run(body@, init_state(), cfg@, anns)
            },
{
    let v = chars_of(body.as_str());
    let mut out: Vec<char> = Vec::new();
    let mut st = RwState { in_body: false, in_head: false, injected: false };
    let mut i: usize = 0;
    let ghost mut anns_g: Seq<Seq<char>> = Seq::empty();
    let ghost mut texts_g: Seq<Seq<char>> = Seq::empty();
    proof {
        assert(v@.skip(0) =~= v@);
        assert(texts_g + body_texts(v@, init_state(), cfg@) =~= body_texts(
            v@,
            init_state(),
            cfg@,
        ));
        assert forall|rest: Seq<Seq<char>>|
            run(v@, init_state(), cfg@, anns_g + rest) == out@ + #[trigger] run(
                v@.skip(0),
                init_state(),
                cfg@,
                rest,
            ) by {
            assert(anns_g + rest =~= rest);
            assert(out@ + run(v@, init_state(), cfg@, rest) =~= run(v@, init_state(), cfg@, rest));
        }
    }
    while i < v.len()
        invariant
            i <= v@.len(),
            texts_g.len() == anns_g.len(),
            forall|k: int|
                0 <= k < texts_g.len() ==> valid_annotation(texts_g[k], anns_g[k], dict@),
            body_texts(v@, init_state(), cfg@) == texts_g + body_texts(
                v@.skip(i as int),
                st,
                cfg@,
            ),
            forall|rest: Seq<Seq<char>>|
                run(v@, init_state(), cfg@, anns_g + rest) == out@ + #[trigger] run(
                    v@.skip(i as int),
                    st,
                    cfg@,
                    rest,
                ),
        decreases v@.len() - i,
    {
        let ghost s = v@.skip(i as int);
        let ghost sp = step_spec(s, st, cfg@);
        let ghost st_old = st;
        let ghost i_old = i as int;
        let ghost out0 = out@;
        let ghost anns0 = anns_g;
        let ghost texts0 = texts_g;
        let (n, st2, isb, payload) = step_exec(&v, i, st, cfg);
        proof {
            assert(s.skip(n as int) =~= v@.skip(i + n));
        }
        if isb {
            let ann = annotate_text(&payload, dict, seg);
            push_all(&mut out, &ann);
            proof {
                assert(body_texts(s, st_old, cfg@) == seq![sp.3] + body_texts(
                    v@.skip(i_old + n),
                    sp.1,
                    cfg@,
                ));
                texts_g = texts_g.push(payload@);
                anns_g = anns_g.push(ann@);
                assert(texts0 + (seq![sp.3] + body_texts(v@.skip(i_old + n), sp.1, cfg@))
                    =~= texts_g + body_texts(v@.skip(i_old + n), sp.1, cfg@));
                assert forall|k: int|
                    0 <= k < texts_g.len() implies valid_annotation(
                    texts_g[k],
                    anns_g[k],
                    dict@,
                ) by {
                    if k < texts0.len() {
                        assert(valid_annotation(texts0[k], anns0[k], dict@));
                    }
                }
                assert forall|rest: Seq<Seq<char>>|
                    run(v@, init_state(), cfg@, anns_g + rest) == out@ + #[trigger] run(
                        v@.skip(i_old + n),
                        st2,
                        cfg@,
                        rest,
                    ) by {
                    let r2 = seq![ann@] + rest;
                    assert(anns0 + r2 =~= anns_g + rest);
                    assert(run(v@, init_state(), cfg@, anns0 + r2) == out0 + run(
                        v@.skip(i_old),
                        st_old,
                        cfg@,
                        r2,
                    ));
                    assert(r2[0] == ann@);
                    assert(r2.drop_first() =~= rest);
                    assert(run(v@.skip(i_old), st_old, cfg@, r2) == ann@ + run(
                        v@.skip(i_old + n),
                        st2,
                        cfg@,
                        rest,
                    ));
                    assert(out0 + (ann@ + run(v@.skip(i_old + n), st2, cfg@, rest)) =~= out@ + run(
                        v@.skip(i_old + n),
                        st2,
                        cfg@,
                        rest,
                    ));
                }
            }
        } else {
            push_all(&mut out, &payload);
            proof {
                assert(body_texts(s, st_old, cfg@) == body_texts(v@.skip(i_old + n), sp.1, cfg@));
                assert forall|rest: Seq<Seq<char>>|
                    run(v@, init_state(), cfg@, anns_g + rest) == out@ + #[trigger] run(
                        v@.skip(i_old + n),
                        st2,
                        cfg@,
                        rest,
                    ) by {
                    assert(run(v@, init_state(), cfg@, anns0 + rest) == out0 + run(
                        v@.skip(i_old),
                        st_old,
                        cfg@,
                        rest,
                    ));
                    assert(run(v@.skip(i_old), st_old, cfg@, rest) == sp.3 + run(
                        v@.skip(i_old + n),
                        st2,
                        cfg@,
                        rest,
                    ));
                    assert(out0 + (sp.3 + run(v@.skip(i_old + n), st2, cfg@, rest)) =~= out@ + run(
                        v@.skip(i_old + n),
                        st2,
                        cfg@,
                        rest,
                    ));
                }
            }
        }
        st = st2;
        i = i + n;
    }
    proof {
        assert(v@.skip(i as int) =~= Seq::<char>::empty());
        assert(body_texts(Seq::<char>::empty(), st, cfg@) =~= Seq::<Seq<char>>::empty());
        assert(texts_g + Seq::<Seq<char>>::empty() =~= texts_g);
        assert(anns_g + Seq::<Seq<char>>::empty() =~= anns_g);
        assert(run(v@, init_state(), cfg@, anns_g + Seq::<Seq<char>>::empty()) == out@ + run(
            v@.skip(i as int),
            st,
            cfg@,
            Seq::<Seq<char>>::empty(),
        ));
        assert(run(Seq::<char>::empty(), st, cfg@, Seq::<Seq<char>>::empty()) =~= Seq::<
            char,
        >::empty());
        assert(out@ + Seq::<char>::empty() =~= out@);
        assert(run(v@, init_state(), cfg@, anns_g) == out@);
    }
    let r = string_of(&out);
    proof {
        assert(v@ == body@);
        let texts = body_texts(body@, init_state(), cfg@);
        assert(anns_g.len() == texts.len() && (forall|k: int|
            0 <= k < texts.len() ==> valid_annotation(texts[k], anns_g[k], dict@)) && r@ == run(
            body@,
            init_state(),
            cfg@,
            anns_g,
        ));
    }
    r
}

} // verus!
