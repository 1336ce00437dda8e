use vstd::prelude::*;
use crate::chars::has_prefix;
use crate::rewrite::prefix_at;
use crate::strutil::chars_of;

verus! {

/// The lower-case form of a string, as str::to_lowercase computes it.
pub uninterp spec fn lower_of(s: Seq<char>) -> Seq<char>;

/// Relies on str::to_lowercase: the result is the string's lowercase
/// equivalent, a function of its characters alone; an empty string stays
/// empty.
#[verifier::external_body]
fn to_lowercase(s: &str) -> (r: String)
    ensures
        r@ == lower_of(s@),
        s@.len() == 0 ==> r@.len() == 0,
{
    s.to_lowercase()
}

/// `needle` occurs somewhere in `hay`.
pub open spec fn contains_seq(hay: Seq<char>, needle: Seq<char>) -> bool {
    exists|i: int| 0 <= i <= hay.len() && has_prefix(hay.skip(i), needle)
}

fn contains_vec(hay: &Vec<char>, needle: &Vec<char>) -> (r: bool)
    ensures
        r == contains_seq(hay@, needle@),
{
    let mut i: usize = 0;
    while i < hay.len()
        invariant
            i <= hay@.len(),
            forall|k: int| 0 <= k < i ==> !has_prefix(hay@.skip(k), needle@),
        decreases hay@.len() - i,
    {
        if prefix_at(hay, i, needle) {
            return true;
        }
        i = i + 1;
    }
    if prefix_at(hay, hay.len(), needle) {
        return true;
    }
    assert forall|k: int| 0 <= k <= hay@.len() implies !has_prefix(hay@.skip(k), needle@) by {}
    false
}

pub open spec fn pat_mobile() -> Seq<char> {
    seq!['m', 'o', 'b', 'i', 'l', 'e']
}

pub open spec fn pat_android() -> Seq<char> {
    seq!['a', 'n', 'd', 'r', 'o', 'i', 'd']
}

pub open spec fn pat_iphone() -> Seq<char> {
    seq!['i', 'p', 'h', 'o', 'n', 'e']
}

pub open spec fn pat_ipad() -> Seq<char> {
    seq!['i', 'p', 'a', 'd']
}

pub open spec fn pat_windows_phone() -> Seq<char> {
    seq!['w', 'i', 'n', 'd', 'o', 'w', 's', ' ', 'p', 'h', 'o', 'n', 'e']
}

/// The lower-cased user agent names a mobile device.
pub open spec fn mobile_spec(l: Seq<char>) -> bool {
    contains_seq(l, pat_mobile()) || contains_seq(l, pat_android()) || contains_seq(
        l,
        pat_iphone(),
    ) || contains_seq(l, pat_ipad()) || contains_seq(l, pat_windows_phone())
}

fn vec_of_pat(which: u8) -> (v: Vec<char>)
    requires
        which < 5,
    ensures
        which == 0 ==> v@ == pat_mobile(),
        which == 1 ==> v@ == pat_android(),
        which == 2 ==> v@ == pat_iphone(),
        which == 3 ==> v@ == pat_ipad(),
        which == 4 ==> v@ == pat_windows_phone(),
{
    let mut v: Vec<char> = Vec::new();
    if which == 0 {
        v.push('m');
        v.push('o');
        v.push('b');
        v.push('i');
        v.push('l');
        v.push('e');
        assert(v@ =~= pat_mobile());
    } else if which == 1 {
        v.push('a');
        v.push('n');
        v.push('d');
        v.push('r');
        v.push('o');
        v.push('i');
        v.push('d');
        assert(v@ =~= pat_android());
    } else if which == 2 {
        v.push('i');
        v.push('p');
        v.push('h');
        v.push('o');
        v.push('n');
        v.push('e');
        assert(v@ =~= pat_iphone());
    } else if which == 3 {
        v.push('i');
        v.push('p');
        v.push('a');
        v.push('d');
        assert(v@ =~= pat_ipad());
    } else {
        v.push('w');
        v.push('i');
        v.push('n');
        v.push('d');
        v.push('o');
        v.push('w');
        v.push('s');
        v.push(' ');
        v.push('p');
        v.push('h');
        v.push('o');
        v.push('n');
        v.push('e');
        assert(v@ =~= pat_windows_phone());
    }
    v
}

/// Decide, over an already lower-cased user agent string, whether it
/// names a mobile device, exactly as `mobile_spec` says.
pub fn has_mobile_marker(l: &Vec<char>) -> (r: bool)
    ensures
        r == mobile_spec(l@),
{
    contains_vec(l, &vec_of_pat(0)) || contains_vec(l, &vec_of_pat(1)) || contains_vec(
        l,
        &vec_of_pat(2),
    ) || contains_vec(l, &vec_of_pat(3)) || contains_vec(l, &vec_of_pat(4))
}

/// A request comes from a mobile device when its user agent, lower-cased,
/// holds one of the mobile markers; a missing user agent never does.
pub fn is_mobile(user_agent: Option<&str>) -> (r: bool)
    ensures
        match user_agent {
            Some(ua) => r == mobile_spec(lower_of(ua@)),
            None => !r,
        },
{
    match user_agent {
        Some(ua) => {
            let low = to_lowercase(ua);
            let cs = chars_of(low.as_str());
            has_mobile_marker(&cs)
        },
        None => false,
    }
}

} // verus!
