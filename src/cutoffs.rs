//! Per-marker minimum scores, read from a table of `marker<TAB>score` lines.
use vstd::prelude::*;

use crate::decimal::{decimal_of, parse_decimal, Decimal};
use crate::text::{split_at_char, split_on, string_views};

verus! {

/// Marker names with their minimum scores, in the order of the table.
pub struct CutoffTable {
    pub entries: Vec<(String, Decimal)>,
}

pub open spec fn entry_views(v: Seq<(String, Decimal)>) -> Seq<(Seq<char>, Decimal)> {
    v.map_values(|e: (String, Decimal)| (e.0@, e.1))
}

/// The cutoff of marker `k`: that of its last entry, as a later line
/// overrides an earlier one.
pub open spec fn cutoff_in(es: Seq<(Seq<char>, Decimal)>, k: Seq<char>) -> Option<Decimal>
    decreases es.len(),
{
    if es.len() == 0 {
        None
    } else if es.last().0 == k {
        Some(es.last().1)
    } else {
        cutoff_in(es.drop_last(), k)
    }
}

/// A line of the table: the marker, a tab, the score, and optionally more
/// tab-separated fields that are ignored.
pub open spec fn cutoff_entry(line: Seq<char>) -> Option<(Seq<char>, Decimal)> {
    let f = split_on(line, '\t');
    if f.len() >= 2 {
        match decimal_of(f[1]) {
            Some(d) => Some((f[0], d)),
            None => None,
        }
    } else {
        None
    }
}

/// The entries of the lines `lines`, where every non-empty line is one.
pub open spec fn cutoff_entries(lines: Seq<Seq<char>>) -> Option<Seq<(Seq<char>, Decimal)>>
    decreases lines.len(),
{
    if lines.len() == 0 {
        Some(Seq::empty())
    } else {
        match cutoff_entries(lines.drop_last()) {
            None => None,
            Some(es) => if lines.last().len() == 0 {
                Some(es)
            } else {
                match cutoff_entry(lines.last()) {
                    Some(e) => Some(es.push(e)),
                    None => None,
                }
            },
        }
    }
}

/// A line of a cutoff table is neither empty nor `marker<TAB>score`.
#[derive(Clone, Copy, Debug)]
pub enum CutoffError {
    MalformedLine,
}

impl CutoffTable {
    pub open spec fn view_entries(&self) -> Seq<(Seq<char>, Decimal)> {
        entry_views(self.entries@)
    }

    /// The cutoff of `marker`, if the table has one.
    pub fn get(&self, marker: &String) -> (r: Option<Decimal>)
        ensures
            r == cutoff_in(self.view_entries(), marker@),
    {
        let mut i: usize = self.entries.len();
        assert(self.view_entries().take(i as int) =~= self.view_entries());
        while i > 0
            invariant
                i <= self.entries.len(),
                cutoff_in(self.view_entries(), marker@) == cutoff_in(
                    self.view_entries().take(i as int),
                    marker@,
                ),
            decreases i,
        {
            let ghost t = self.view_entries().take(i as int);
            proof {
                assert(t.drop_last() =~= self.view_entries().take(i - 1));
            }
            if self.entries[i - 1].0 == *marker {
                return Some(self.entries[i - 1].1);
            }
            i = i - 1;
        }
        None
    }
}

proof fn lemma_entries_fail(ls: Seq<Seq<char>>, i: int)
    requires
        0 <= i <= ls.len(),
        cutoff_entries(ls.take(i)) is None,
    ensures
        cutoff_entries(ls) is None,
    decreases ls.len(),
{
    if i == ls.len() {
        assert(ls.take(i) =~= ls);
    } else {
        assert(ls.drop_last().take(i) =~= ls.take(i));
        lemma_entries_fail(ls.drop_last(), i);
    }
}

/// Reads a cutoff table: one `marker<TAB>score` entry per line, empty lines
/// skipped.
pub fn parse_cutoffs(cutoffs: &str) -> (r: Result<CutoffTable, CutoffError>)
    ensures
        match cutoff_entries(split_on(cutoffs@, '\n')) {
            Some(es) => r matches Ok(t) && t.view_entries() == es,
            None => r is Err,
        },
{
    let lines = split_at_char(cutoffs, '\n');
    let ghost ls = string_views(lines@);
    let mut entries: Vec<(String, Decimal)> = Vec::new();
    let mut i: usize = 0;
    assert(ls.take(0) =~= Seq::<Seq<char>>::empty());
    assert(entry_views(entries@) =~= Seq::<(Seq<char>, Decimal)>::empty());
    while i < lines.len()
        invariant
            ls == string_views(lines@),
            ls == split_on(cutoffs@, '\n'),
            i <= lines.len(),
            cutoff_entries(ls.take(i as int)) == Some(entry_views(entries@)),
        decreases lines.len() - i,
    {
        proof {
            assert(ls.take(i + 1).drop_last() =~= ls.take(i as int));
        }
        let line = &lines[i];
        if line.as_str().is_empty() {
            i = i + 1;
            continue;
        }
        let fields = split_at_char(line.as_str(), '\t');
        proof {
            assert(ls[i as int] == line@);
            assert(ls.take(i + 1).last() == ls[i as int]);
            assert(string_views(fields@).len() == fields@.len());
        }
        if fields.len() < 2 {
            proof {
                lemma_entries_fail(ls, i as int + 1);
            }
            return Err(CutoffError::MalformedLine);
        }
        let score = match parse_decimal(fields[1].as_str()) {
            Some(d) => d,
            None => {
                proof {
                    assert(string_views(fields@)[1] == fields@[1]@);
                    lemma_entries_fail(ls, i as int + 1);
                }
                return Err(CutoffError::MalformedLine);
            },
        };
        let ghost before = entry_views(entries@);
        entries.push((fields[0].clone(), score));
        proof {
            assert(entry_views(entries@) =~= before.push((string_views(fields@)[0], score)));
        }
        i = i + 1;
    }
    proof {
        assert(ls.take(i as int) =~= ls);
    }
    Ok(CutoffTable { entries })
}

} // verus!
