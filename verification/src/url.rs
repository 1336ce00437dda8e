use vstd::prelude::*;
use crate::chars::{
    has_prefix, starts_with, copy_vec, sub_vec, push_all, split_on, split_vec, views_of,
};

verus! {

// ---------------------------------------------------------------------------
// Configuration
// ---------------------------------------------------------------------------

/// The fixed values the rewriter depends on: the canonical upstream host
/// (scheme included), the wiki content path prefix, its locale-specific
/// replacement, and the stylesheet fragment injected into the head.
pub struct RewriteConfig {
    pub host: Vec<char>,
    pub wiki_prefix: Vec<char>,
    pub lang_prefix: Vec<char>,
    pub style: Vec<char>,
}

// ---------------------------------------------------------------------------
// URL classification
// ---------------------------------------------------------------------------

pub open spec fn http_prefix() -> Seq<char> {
    seq!['h', 't', 't', 'p', ':', '/', '/']
}

pub open spec fn https_prefix() -> Seq<char> {
    seq!['h', 't', 't', 'p', 's', ':', '/', '/']
}

pub open spec fn https_colon() -> Seq<char> {
    seq!['h', 't', 't', 'p', 's', ':']
}

pub open spec fn slash_slash() -> Seq<char> {
    seq!['/', '/']
}

pub open spec fn slash() -> Seq<char> {
    seq!['/']
}

/// A fully qualified http or https URL.
pub open spec fn is_absolute(u: Seq<char>) -> bool {
    has_prefix(u, http_prefix()) || has_prefix(u, https_prefix())
}

/// The href rule: absolute URLs unchanged; protocol-relative URLs get the
/// https scheme; the wiki content prefix is replaced by the locale prefix;
/// other root-relative URLs are qualified against the upstream host;
/// everything else is unchanged.
pub open spec fn rewrite_href_spec(
    u: Seq<char>,
    host: Seq<char>,
    wiki: Seq<char>,
    lang: Seq<char>,
) -> Seq<char> {
    if is_absolute(u) {
        u
    } else if has_prefix(u, slash_slash()) {
        https_colon() + u
    } else if has_prefix(u, wiki) {
        lang + u.skip(wiki.len() as int)
    } else if has_prefix(u, slash()) {
        host + u
    } else {
        u
    }
}

/// The src rule: as the href rule, without the wiki prefix case.
pub open spec fn rewrite_src_spec(u: Seq<char>, host: Seq<char>) -> Seq<char> {
    if is_absolute(u) {
        u
    } else if has_prefix(u, slash_slash()) {
        https_colon() + u
    } else if has_prefix(u, slash()) {
        host + u
    } else {
        u
    }
}

// literal builders ----------------------------------------------------------

fn vec_http() -> (v: Vec<char>)
    ensures
        v@ == http_prefix(),
{
    let mut v: Vec<char> = Vec::new();
    v.push('h');
    v.push('t');
    v.push('t');
    v.push('p');
    v.push(':');
    v.push('/');
    v.push('/');
    assert(v@ =~= http_prefix());
    v
}

fn vec_https() -> (v: Vec<char>)
    ensures
        v@ == https_prefix(),
{
    let mut v: Vec<char> = Vec::new();
    v.push('h');
    v.push('t');
    v.push('t');
    v.push('p');
    v.push('s');
    v.push(':');
    v.push('/');
    v.push('/');
    assert(v@ =~= https_prefix());
    v
}

fn vec_https_colon() -> (v: Vec<char>)
    ensures
        v@ == https_colon(),
{
    let mut v: Vec<char> = Vec::new();
    v.push('h');
    v.push('t');
    v.push('t');
    v.push('p');
    v.push('s');
    v.push(':');
    assert(v@ =~= https_colon());
    v
}

fn vec_slash_slash() -> (v: Vec<char>)
    ensures
        v@ == slash_slash(),
{
    let mut v: Vec<char> = Vec::new();
    v.push('/');
    v.push('/');
    assert(v@ =~= slash_slash());
    v
}

fn vec_slash() -> (v: Vec<char>)
    ensures
        v@ == slash(),
{
    let mut v: Vec<char> = Vec::new();
    v.push('/');
    assert(v@ =~= slash());
    v
}

// executable rewriting ------------------------------------------------------

/// Rewrite an href attribute value as `rewrite_href_spec` describes.
pub fn rewrite_href(u: &Vec<char>, cfg: &RewriteConfig) -> (r: Vec<char>)
    ensures
        r@ == rewrite_href_spec(u@, cfg.host@, cfg.wiki_prefix@, cfg.lang_prefix@),
{
    let http = vec_http();
    let https = vec_https();
    if starts_with(u, &http) || starts_with(u, &https) {
        copy_vec(u)
    } else if starts_with(u, &vec_slash_slash()) {
        let mut out = vec_https_colon();
        push_all(&mut out, u);
        out
    } else if starts_with(u, &cfg.wiki_prefix) {
        let mut out = copy_vec(&cfg.lang_prefix);
        let rest = sub_vec(u, cfg.wiki_prefix.len(), u.len());
        push_all(&mut out, &rest);
        proof {
            assert(u@.subrange(cfg.wiki_prefix@.len() as int, u@.len() as int) =~= u@.skip(
                cfg.wiki_prefix@.len() as int,
            ));
        }
        out
    } else if starts_with(u, &vec_slash()) {
        let mut out = copy_vec(&cfg.host);
        push_all(&mut out, u);
        out
    } else {
        copy_vec(u)
    }
}

/// Rewrite a src attribute value as `rewrite_src_spec` describes.
pub fn rewrite_src(u: &Vec<char>, cfg: &RewriteConfig) -> (r: Vec<char>)
    ensures
        r@ == rewrite_src_spec(u@, cfg.host@),
{
    let http = vec_http();
    let https = vec_https();
    if starts_with(u, &http) || starts_with(u, &https) {
        copy_vec(u)
    } else if starts_with(u, &vec_slash_slash()) {
        let mut out = vec_https_colon();
        push_all(&mut out, u);
        out
    } else if starts_with(u, &vec_slash()) {
        let mut out = copy_vec(&cfg.host);
        push_all(&mut out, u);
        out
    } else {
        copy_vec(u)
    }
}

// ---------------------------------------------------------------------------
// srcset rewriting
// ---------------------------------------------------------------------------

/// ASCII whitespace, as it separates a srcset URL from its descriptor.
pub open spec fn is_ws(c: char) -> bool {
    c == ' ' || c == '\t' || c == '\n' || c == '\r' || c == '\u{0c}'
}

fn ws(c: char) -> (r: bool)
    ensures
        r == is_ws(c),
{
    c == ' ' || c == '\t' || c == '\n' || c == '\r' || c == '\u{0c}'
}

/// The number of leading whitespace characters.
pub open spec fn leading_ws(s: Seq<char>) -> int
    decreases s.len(),
{
    if s.len() > 0 && is_ws(s[0]) {
        1 + leading_ws(s.drop_first())
    } else {
        0
    }
}

pub proof fn lemma_leading_ws_bound(s: Seq<char>)
    ensures
        0 <= leading_ws(s) <= s.len(),
    decreases s.len(),
{
    if s.len() > 0 && is_ws(s[0]) {
        lemma_leading_ws_bound(s.drop_first());
    }
}

/// The sequence without its trailing whitespace.
pub open spec fn drop_ws_back(s: Seq<char>) -> Seq<char>
    decreases s.len(),
{
    if s.len() > 0 && is_ws(s.last()) {
        drop_ws_back(s.drop_last())
    } else {
        s
    }
}

/// The sequence without leading and trailing whitespace.
pub open spec fn trim_spec(s: Seq<char>) -> Seq<char> {
    drop_ws_back(s.skip(leading_ws(s)))
}

/// First index of a whitespace character (or the length if none).
pub open spec fn find_ws0(s: Seq<char>) -> int
    decreases s.len(),
{
    if s.len() == 0 {
        0
    } else if is_ws(s[0]) {
        0
    } else {
        1 + find_ws0(s.drop_first())
    }
}

pub proof fn lemma_find_ws0_bound(s: Seq<char>)
    ensures
        0 <= find_ws0(s) <= s.len(),
    decreases s.len(),
{
    if s.len() > 0 && !is_ws(s[0]) {
        lemma_find_ws0_bound(s.drop_first());
    }
}

pub open spec fn comma_space() -> Seq<char> {
    seq![',', ' ']
}

/// One srcset list entry: trimmed, its URL component (up to the first
/// whitespace) rewritten by the src rule, the descriptor preserved.
pub open spec fn srcset_part_spec(part: Seq<char>, host: Seq<char>) -> Seq<char> {
    let t = trim_spec(part);
    if t.len() == 0 {
        t
    } else {
        rewrite_src_spec(t.take(find_ws0(t)), host) + t.skip(find_ws0(t))
    }
}

/// The parts joined with `sep` between them.
pub open spec fn join_with(ps: Seq<Seq<char>>, sep: Seq<char>) -> Seq<char>
    decreases ps.len(),
{
    if ps.len() == 0 {
        Seq::empty()
    } else if ps.len() == 1 {
        ps[0]
    } else {
        ps[0] + sep + join_with(ps.drop_first(), sep)
    }
}

pub proof fn lemma_join_push(ps: Seq<Seq<char>>, p: Seq<char>, sep: Seq<char>)
    ensures
        ps.len() == 0 ==> join_with(ps.push(p), sep) == p,
        ps.len() > 0 ==> join_with(ps.push(p), sep) == join_with(ps, sep) + sep + p,
    decreases ps.len(),
{
    if ps.len() == 0 {
        assert(join_with(ps.push(p), sep) == ps.push(p)[0]);
        assert(ps.push(p)[0] == p);
    } else if ps.len() == 1 {
        assert(ps.push(p).drop_first() =~= seq![p]);
        assert(ps.push(p)[0] == ps[0]);
        assert(join_with(seq![p], sep) == p);
        assert(join_with(ps.push(p), sep) == ps[0] + sep + p);
    } else {
        assert(ps.push(p).drop_first() =~= ps.drop_first().push(p));
        lemma_join_push(ps.drop_first(), p, sep);
        assert(join_with(ps.push(p), sep) =~= join_with(ps, sep) + sep + p);
    }
}

/// The whole srcset value: split at commas, each entry rewritten, rejoined
/// with a comma and a single space.
pub open spec fn rewrite_srcset_spec(v: Seq<char>, host: Seq<char>) -> Seq<char> {
    join_with(
        split_on(v, ',').map_values(|p: Seq<char>| srcset_part_spec(p, host)),
        comma_space(),
    )
}

/// The index after the leading whitespace of `v`.
fn first_non_ws(v: &Vec<char>) -> (r: usize)
    ensures
        r == leading_ws(v@),
        r <= v@.len(),
{
    proof {
        assert(v@.skip(0) =~= v@);
    }
    let mut i: usize = 0;
    while i < v.len()
        invariant
            i <= v@.len(),
            leading_ws(v@) == i + leading_ws(v@.skip(i as int)),
        decreases v@.len() - i,
    {
        let ghost rest = v@.skip(i as int);
        if !ws(v[i]) {
            assert(rest[0] == v@[i as int]);
            assert(leading_ws(rest) == 0);
            proof {
                lemma_leading_ws_bound(v@);
            }
            return i;
        }
        proof {
            assert(rest[0] == v@[i as int]);
            assert(rest.drop_first() =~= v@.skip(i + 1));
            assert(leading_ws(rest) == 1 + leading_ws(v@.skip(i + 1)));
        }
        i = i + 1;
    }
    assert(v@.skip(i as int) =~= Seq::<char>::empty());
    i
}

/// Trim leading and trailing whitespace from `v`.
fn trim_vec(v: &Vec<char>) -> (r: Vec<char>)
    ensures
        r@ == trim_spec(v@),
{
    let a = first_non_ws(v);
    let ghost t = v@.skip(a as int);
    let mut b: usize = v.len();
    proof {
        assert(t.take(t.len() as int) =~= t);
    }
    while b > a && ws(v[b - 1])
        invariant
            a <= b <= v@.len(),
            t == v@.skip(a as int),
            drop_ws_back(t) == drop_ws_back(t.take(b - a)),
        decreases b,
    {
        proof {
            let k = b - a;
            assert(t.take(k).last() == v@[b - 1]);
            assert(t.take(k).drop_last() =~= t.take(k - 1));
            assert(drop_ws_back(t.take(k)) == drop_ws_back(t.take(k - 1)));
        }
        b = b - 1;
    }
    proof {
        if b > a {
            assert(t.take(b - a).last() == v@[b - 1]);
            assert(drop_ws_back(t.take(b - a)) == t.take(b - a));
        } else {
            assert(t.take(0) =~= Seq::<char>::empty());
            assert(drop_ws_back(Seq::<char>::empty()) =~= Seq::<char>::empty());
        }
    }
    let r = sub_vec(v, a, b);
    proof {
        assert(r@ =~= t.take(b - a));
    }
    r
}

/// First whitespace index in `v` (or its length).
fn find_ws(v: &Vec<char>) -> (r: usize)
    ensures
        r == find_ws0(v@),
        r <= v@.len(),
{
    proof {
        assert(v@.skip(0) =~= v@);
    }
    let mut i: usize = 0;
    while i < v.len()
        invariant
            i <= v@.len(),
            find_ws0(v@) == i + find_ws0(v@.skip(i as int)),
        decreases v@.len() - i,
    {
        let ghost rest = v@.skip(i as int);
        if ws(v[i]) {
            assert(rest[0] == v@[i as int]);
            assert(find_ws0(rest) == 0);
            proof {
                lemma_find_ws0_bound(v@);
            }
            return i;
        }
        proof {
            assert(rest[0] == v@[i as int]);
            assert(rest.drop_first() =~= v@.skip(i + 1));
        }
        i = i + 1;
    }
    assert(v@.skip(i as int) =~= Seq::<char>::empty());
    i
}

/// Rewrite a srcset attribute value as `rewrite_srcset_spec` describes.
pub fn rewrite_srcset(v: &Vec<char>, cfg: &RewriteConfig) -> (r: Vec<char>)
    ensures
        r@ == rewrite_srcset_spec(v@, cfg.host@),
{
    let parts = split_vec(v, ',');
    let ghost ps = split_on(v@, ',').map_values(|p: Seq<char>| srcset_part_spec(p, cfg.host@));
    let mut out: Vec<char> = Vec::new();
    let mut i: usize = 0;
    proof {
        assert(ps.len() == parts@.len());
        assert(join_with(ps.take(0), comma_space()) =~= Seq::<char>::empty());
    }
    while i < parts.len()
        invariant
            i <= parts@.len() == ps.len(),
            views_of(parts@) == split_on(v@, ','),
            ps == split_on(v@, ',').map_values(|p: Seq<char>| srcset_part_spec(p, cfg.host@)),
            out@ == join_with(ps.take(i as int), comma_space()),
        decreases parts@.len() - i,
    {
        let ghost part_v = views_of(parts@)[i as int];
        let t = trim_vec(&parts[i]);
        proof {
            assert(t@ == trim_spec(part_v));
        }
        let piece: Vec<char> = if t.len() == 0 {
            t
        } else {
            let k = find_ws(&t);
            let urlpart = sub_vec(&t, 0, k);
            let rest = sub_vec(&t, k, t.len());
            let mut p2 = rewrite_src(&urlpart, cfg);
            push_all(&mut p2, &rest);
            proof {
                assert(urlpart@ =~= t@.take(k as int));
                assert(rest@ =~= t@.skip(k as int));
            }
            p2
        };
        proof {
            assert(piece@ == srcset_part_spec(part_v, cfg.host@));
            assert(piece@ == ps[i as int]);
            lemma_join_push(ps.take(i as int), ps[i as int], comma_space());
            assert(ps.take(i as int).push(ps[i as int]) =~= ps.take(i + 1));
        }
        if i > 0 {
            out.push(',');
            out.push(' ');
            push_all(&mut out, &piece);
            proof {
                assert(out@ =~= join_with(ps.take(i as int), comma_space()) + comma_space()
                    + ps[i as int]);
            }
        } else {
            push_all(&mut out, &piece);
            proof {
                assert(out@ =~= ps[i as int]);
            }
        }
        i = i + 1;
    }
    proof {
        assert(ps.take(ps.len() as int) =~= ps);
    }
    out
}

// ---------------------------------------------------------------------------
// Idempotence of URL classification
// ---------------------------------------------------------------------------

proof fn lemma_prefix_of_concat(a: Seq<char>, b: Seq<char>, p: Seq<char>)
    requires
        has_prefix(a, p),
    ensures
        has_prefix(a + b, p),
{
    assert((a + b).subrange(0, p.len() as int) =~= a.subrange(0, p.len() as int));
}

/// A protocol-relative URL given the https scheme is absolute.
proof fn lemma_https_colon_absolute(u: Seq<char>)
    requires
        has_prefix(u, slash_slash()),
    ensures
        is_absolute(https_colon() + u),
{
    assert((https_colon() + u).subrange(0, https_prefix().len() as int) =~= https_prefix());
}

/// Src rewriting is idempotent: with an absolute upstream host, applying
/// the src rule to an already-rewritten value changes nothing, for every
/// input URL.
pub proof fn lemma_rewrite_src_idempotent(u: Seq<char>, host: Seq<char>)
    requires
        is_absolute(host),
    ensures
        rewrite_src_spec(rewrite_src_spec(u, host), host) == rewrite_src_spec(u, host),
{
    if is_absolute(u) {
    } else if has_prefix(u, slash_slash()) {
        lemma_https_colon_absolute(u);
    } else if has_prefix(u, slash()) {
        if has_prefix(host, http_prefix()) {
            lemma_prefix_of_concat(host, u, http_prefix());
        } else {
            lemma_prefix_of_concat(host, u, https_prefix());
        }
    }
}

/// Href rewriting is a no-op on an already-rewritten absolute result: the
/// one rewritten form that is not absolute is the locale-prefixed wiki
/// path, which this law therefore leaves out.
pub proof fn lemma_rewrite_href_idempotent_on_absolute(
    u: Seq<char>,
    host: Seq<char>,
    wiki: Seq<char>,
    lang: Seq<char>,
)
    requires
        is_absolute(rewrite_href_spec(u, host, wiki, lang)),
    ensures
        rewrite_href_spec(rewrite_href_spec(u, host, wiki, lang), host, wiki, lang)
            == rewrite_href_spec(u, host, wiki, lang),
{
}

} // verus!
