use vstd::prelude::*;
use crate::chars::{split_on, split_vec, views_of, chars_eq, copy_vec};
use crate::strutil::chars_of;

verus! {

// ---------------------------------------------------------------------------
// What a dictionary source text denotes
// ---------------------------------------------------------------------------

/// One trailing carriage return is dropped from a line, so that sources with
/// CRLF line endings parse as with LF alone.
pub open spec fn trim_cr(line: Seq<char>) -> Seq<char> {
    if line.len() > 0 && line[line.len() - 1] == '\r' {
        line.drop_last()
    } else {
        line
    }
}

/// The lines of a source text: split at newlines, one trailing carriage
/// return removed from each line.
pub open spec fn lines_of(src: Seq<char>) -> Seq<Seq<char>> {
    split_on(src, '\n').map_values(|l: Seq<char>| trim_cr(l))
}

/// What one source row contributes: nothing for an empty row, a comment row
/// (leading `#`) or a row of fewer than three comma-separated fields;
/// otherwise the first field as the word and the third as its phonetic
/// string.
pub open spec fn row_entry(line: Seq<char>) -> Option<(Seq<char>, Seq<char>)> {
    if line.len() == 0 || line[0] == '#' {
        None
    } else {
        let fields = split_on(line, ',');
        if fields.len() >= 3 {
            Some((fields[0], fields[2]))
        } else {
            None
        }
    }
}

/// The phonetic string of the first entry whose word is `w`, if any.
pub open spec fn lookup(es: Seq<(Seq<char>, Seq<char>)>, w: Seq<char>) -> Option<Seq<char>>
    decreases es.len(),
{
    if es.len() == 0 {
        None
    } else if es[0].0 == w {
        Some(es[0].1)
    } else {
        lookup(es.drop_first(), w)
    }
}

/// The entries after processing `rows` in order, starting from `acc`: a row
/// whose word is already present is discarded, so the first occurrence of a
/// word wins.
pub open spec fn build_rec(
    rows: Seq<Seq<char>>,
    acc: Seq<(Seq<char>, Seq<char>)>,
) -> Seq<(Seq<char>, Seq<char>)>
    decreases rows.len(),
{
    if rows.len() == 0 {
        acc
    } else {
        match row_entry(rows[0]) {
            None => build_rec(rows.drop_first(), acc),
            Some(e) => if lookup(acc, e.0) is Some {
                build_rec(rows.drop_first(), acc)
            } else {
                build_rec(rows.drop_first(), acc.push(e))
            },
        }
    }
}

/// The dictionary a source text denotes.
pub open spec fn dict_of(src: Seq<char>) -> Seq<(Seq<char>, Seq<char>)> {
    build_rec(lines_of(src), Seq::empty())
}

pub open spec fn distinct_keys(es: Seq<(Seq<char>, Seq<char>)>) -> bool {
    forall|i: int, j: int| 0 <= i < j < es.len() ==> es[i].0 != es[j].0
}

// ---------------------------------------------------------------------------
// Lemmas about lookup
// ---------------------------------------------------------------------------

pub proof fn lemma_lookup_at_index(es: Seq<(Seq<char>, Seq<char>)>, w: Seq<char>, i: int)
    requires
        0 <= i < es.len(),
        es[i].0 == w,
        forall|k: int| 0 <= k < i ==> es[k].0 != w,
    ensures
        lookup(es, w) == Some(es[i].1),
    decreases i,
{
    if i > 0 {
        assert(es[0].0 != w);
        lemma_lookup_at_index(es.drop_first(), w, i - 1);
    }
}

pub proof fn lemma_lookup_none(es: Seq<(Seq<char>, Seq<char>)>, w: Seq<char>)
    requires
        forall|k: int| 0 <= k < es.len() ==> es[k].0 != w,
    ensures
        lookup(es, w) is None,
    decreases es.len(),
{
    if es.len() > 0 {
        lemma_lookup_none(es.drop_first(), w);
    }
}

pub proof fn lemma_lookup_none_keys(es: Seq<(Seq<char>, Seq<char>)>, w: Seq<char>)
    requires
        lookup(es, w) is None,
    ensures
        forall|k: int| 0 <= k < es.len() ==> es[k].0 != w,
    decreases es.len(),
{
    if es.len() > 0 {
        lemma_lookup_none_keys(es.drop_first(), w);
        assert forall|k: int| 0 <= k < es.len() implies es[k].0 != w by {
            if k > 0 {
                assert(es.drop_first()[k - 1] == es[k]);
            }
        }
    }
}

// ---------------------------------------------------------------------------
// The executable dictionary
// ---------------------------------------------------------------------------

/// Failure to build a dictionary: the source holds no usable row.
#[derive(Debug)]
pub struct DictionaryLoadError;

/// An immutable mapping from a Han word to its per-character phonetic
/// string, built once from a comma-delimited source.
pub struct Dictionary {
    entries: Vec<(Vec<char>, Vec<char>)>,
}

impl View for Dictionary {
    type V = Seq<(Seq<char>, Seq<char>)>;

    closed spec fn view(&self) -> Seq<(Seq<char>, Seq<char>)> {
        self.entries@.map_values(|p: (Vec<char>, Vec<char>)| (p.0@, p.1@))
    }
}

/// Scan for the first entry whose word is `w`.
fn lookup_idx(entries: &Vec<(Vec<char>, Vec<char>)>, w: &Vec<char>) -> (r: Option<usize>)
    ensures
        match r {
            Some(i) => i < entries@.len() && lookup(
                entries@.map_values(|p: (Vec<char>, Vec<char>)| (p.0@, p.1@)),
                w@,
            ) == Some(entries@[i as int].1@),
            None => lookup(
                entries@.map_values(|p: (Vec<char>, Vec<char>)| (p.0@, p.1@)),
                w@,
            ) is None,
        },
{
    let ghost evs = entries@.map_values(|p: (Vec<char>, Vec<char>)| (p.0@, p.1@));
    let mut i: usize = 0;
    while i < entries.len()
        invariant
            i <= entries@.len(),
            evs == entries@.map_values(|p: (Vec<char>, Vec<char>)| (p.0@, p.1@)),
            forall|k: int| 0 <= k < i ==> evs[k].0 != w@,
        decreases entries@.len() - i,
    {
        if chars_eq(&entries[i].0, w) {
            proof {
                lemma_lookup_at_index(evs, w@, i as int);
            }
            return Some(i);
        }
        i = i + 1;
    }
    proof {
        lemma_lookup_none(evs, w@);
    }
    None
}

/// Parse one line as `row_entry` describes.
fn parse_row(line: &Vec<char>) -> (r: Option<(Vec<char>, Vec<char>)>)
    ensures
        match r {
            Some(p) => row_entry(line@) == Some((p.0@, p.1@)),
            None => row_entry(line@) is None,
        },
{
    if line.len() == 0 {
        return None;
    }
    if line[0] == '#' {
        return None;
    }
    let fields = split_vec(line, ',');
    if fields.len() >= 3 {
        let w = copy_vec(&fields[0]);
        let p = copy_vec(&fields[2]);
        proof {
            assert(views_of(fields@)[0] == fields@[0]@);
            assert(views_of(fields@)[2] == fields@[2]@);
        }
        Some((w, p))
    } else {
        None
    }
}

impl Dictionary {
    /// Keys are pairwise distinct: the load-time deduplication holds.
    pub open spec fn wf(&self) -> bool {
        distinct_keys(self@)
    }

    /// Build the dictionary from a comma-delimited source text: one row per
    /// line, empty and `#`-comment rows skipped, rows of fewer than three
    /// fields skipped, the first field the word and the third its phonetic
    /// string, the first occurrence of a word winning over later ones.
    /// Fails exactly when no row yields an entry.
    pub fn load(src: &str) -> (r: Result<Dictionary, DictionaryLoadError>)
        ensures
            match r {
                Ok(d) => d@ == dict_of(src@) && d.wf() && d@.len() > 0,
                Err(_) => dict_of(src@).len() == 0,
            },
    {
        let cs = chars_of(src);
        let raw_lines = split_vec(&cs, '\n');
        let ghost rows = lines_of(src@);
        let mut entries: Vec<(Vec<char>, Vec<char>)> = Vec::new();
        let mut i: usize = 0;
        proof {
            assert(rows.len() == raw_lines@.len());
            assert(rows.skip(0) =~= rows);
            assert(entries@.map_values(|p: (Vec<char>, Vec<char>)| (p.0@, p.1@)) =~= Seq::<(
                Seq<char>,
                Seq<char>,
            )>::empty());
        }
        while i < raw_lines.len()
            invariant
                i <= raw_lines@.len(),
                rows == lines_of(src@),
                rows.len() == raw_lines@.len(),
                forall|k: int| 0 <= k < raw_lines@.len() ==> rows[k] == trim_cr(raw_lines@[k]@),
                distinct_keys(entries@.map_values(|p: (Vec<char>, Vec<char>)| (p.0@, p.1@))),
                build_rec(rows, Seq::empty()) == build_rec(
                    rows.skip(i as int),
                    entries@.map_values(|p: (Vec<char>, Vec<char>)| (p.0@, p.1@)),
                ),
            decreases raw_lines@.len() - i,
        {
            let ghost acc = entries@.map_values(|p: (Vec<char>, Vec<char>)| (p.0@, p.1@));
            let ghost rest = rows.skip(i as int);
            proof {
                assert(rest[0] == rows[i as int]);
                assert(rest.drop_first() =~= rows.skip(i + 1));
            }
            let line = &raw_lines[i];
            // trim one trailing '\r'
            let trimmed: Vec<char> = if line.len() > 0 && line[line.len() - 1] == '\r' {
                let t = crate::chars::sub_vec(line, 0, line.len() - 1);
                proof {
                    assert(t@ =~= trim_cr(line@));
                }
                t
            } else {
                copy_vec(line)
            };
            assert(trimmed@ == rows[i as int]);
            match parse_row(&trimmed) {
                None => {
                },
                Some(e) => {
                    match lookup_idx(&entries, &e.0) {
                        Some(_) => {
                        },
                        None => {
                            proof {
                                lemma_lookup_none_keys(acc, e.0@);
                                assert(acc.push((e.0@, e.1@)).drop_last() =~= acc);
                                assert(entries@.push(e).map_values(
                                    |p: (Vec<char>, Vec<char>)| (p.0@, p.1@),
                                ) =~= acc.push((e.0@, e.1@)));
                            }
                            entries.push(e);
                        },
                    }
                },
            }
            i = i + 1;
        }
        proof {
            assert(rows.skip(rows.len() as int) =~= Seq::<Seq<char>>::empty());
        }
        if entries.len() == 0 {
            Err(DictionaryLoadError)
        } else {
            Ok(Dictionary { entries })
        }
    }

    /// The phonetic string of `w`, if the dictionary holds it.
    pub fn get(&self, w: &Vec<char>) -> (r: Option<&Vec<char>>)
        ensures
            match r {
                Some(p) => lookup(self@, w@) == Some(p@),
                None => lookup(self@, w@) is None,
            },
    {
        match lookup_idx(&self.entries, w) {
            Some(i) => Some(&self.entries[i].1),
            None => None,
        }
    }

    pub fn len(&self) -> (n: usize)
        ensures
            n == self@.len(),
    {
        self.entries.len()
    }

    /// The word of the entry at `i`, in load order.
    pub fn word_at(&self, i: usize) -> (r: &Vec<char>)
        requires
            i < self@.len(),
        ensures
            r@ == self@[i as int].0,
    {
        &self.entries[i].0
    }
}

} // verus!
