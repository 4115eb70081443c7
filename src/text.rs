//! Character-level helpers shared by the parsers of this crate.
use vstd::prelude::*;

verus! {

/// The characters of `s`, in order.
pub fn chars_of(s: &str) -> (r: Vec<char>)
    ensures
        r@ == s@,
{
    let mut out: Vec<char> = Vec::new();
    for c in it: s.chars()
        invariant
            it.seq() == s@,
            out@ == it.seq().take(it.index() as int),
    {
        out.push(c);
    }
    assert(out@ =~= s@);
    out
}

/// Relies on `FromIterator<&char>` for `String`: the string holds exactly
/// the given characters, in order.
#[verifier::external_body]
pub(crate) fn string_of(cs: &[char]) -> (r: String)
    ensures
        r@ == cs@,
{
    cs.iter().collect()
}

/// The pieces of `s` between occurrences of `sep`, continuing a piece that
/// already holds `cur`.
pub open spec fn split_from(s: Seq<char>, sep: char, cur: Seq<char>) -> Seq<Seq<char>>
    decreases s.len(),
{
    if s.len() == 0 {
        seq![cur]
    } else if s[0] == sep {
        seq![cur] + split_from(s.drop_first(), sep, Seq::empty())
    } else {
        split_from(s.drop_first(), sep, cur.push(s[0]))
    }
}

/// The pieces of `s` between occurrences of `sep`, empty pieces included:
/// one more piece than there are separators.
pub open spec fn split_on(s: Seq<char>, sep: char) -> Seq<Seq<char>> {
    split_from(s, sep, Seq::empty())
}

/// ASCII whitespace: space, tab, line feed, form feed, carriage return.
pub open spec fn is_ascii_space(c: char) -> bool {
    c == ' ' || c == '\t' || c == '\n' || c == '\x0C' || c == '\r'
}

/// The words of `s` (maximal runs without ASCII whitespace), continuing a
/// word that already holds `cur`.
pub open spec fn words_from(s: Seq<char>, cur: Seq<char>) -> Seq<Seq<char>>
    decreases s.len(),
{
    let done = if cur.len() > 0 {
        seq![cur]
    } else {
        Seq::empty()
    };
    if s.len() == 0 {
        done
    } else if is_ascii_space(s[0]) {
        done + words_from(s.drop_first(), Seq::empty())
    } else {
        words_from(s.drop_first(), cur.push(s[0]))
    }
}

/// The words of `s`, separated by ASCII whitespace.
pub open spec fn words(s: Seq<char>) -> Seq<Seq<char>> {
    words_from(s, Seq::empty())
}

pub open spec fn string_views(v: Seq<String>) -> Seq<Seq<char>> {
    v.map_values(|s: String| s@)
}

/// Splits `s` at every `sep`.
pub fn split_at_char(s: &str, sep: char) -> (r: Vec<String>)
    ensures
        string_views(r@) == split_on(s@, sep),
{
    let cs = chars_of(s);
    let mut out: Vec<String> = Vec::new();
    let mut cur: Vec<char> = Vec::new();
    let mut i: usize = 0;
    proof {
        assert(cs@.skip(0) =~= cs@);
        assert(cur@ =~= Seq::<char>::empty());
        assert(string_views(out@) + split_on(s@, sep) =~= split_on(s@, sep));
    }
    while i < cs.len()
        invariant
            cs@ == s@,
            i <= cs.len(),
            string_views(out@) + split_from(cs@.skip(i as int), sep, cur@) == split_on(s@, sep),
        decreases cs.len() - i,
    {
        let c = cs[i];
        proof {
            assert(cs@.skip(i as int).drop_first() =~= cs@.skip(i + 1));
        }
        if c == sep {
            let piece = string_of(cur.as_slice());
            proof {
                assert(string_views(out@.push(piece)) =~= string_views(out@).push(cur@));
                assert(string_views(out@.push(piece)) + split_from(cs@.skip(i + 1), sep, Seq::empty())
                    =~= string_views(out@) + (seq![cur@] + split_from(cs@.skip(i + 1), sep, Seq::empty())));
            }
            out.push(piece);
            cur = Vec::new();
        } else {
            cur.push(c);
        }
        i = i + 1;
    }
    let piece = string_of(cur.as_slice());
    proof {
        assert(cs@.skip(i as int) =~= Seq::<char>::empty());
        assert(string_views(out@.push(piece)) =~= string_views(out@) + seq![cur@]);
    }
    out.push(piece);
    out
}

fn is_ascii_space_exec(c: char) -> (r: bool)
    ensures
        r == is_ascii_space(c),
{
    c == ' ' || c == '\t' || c == '\n' || c == '\x0C' || c == '\r'
}

/// The words of `s`, separated by ASCII whitespace.
pub fn split_words(s: &str) -> (r: Vec<String>)
    ensures
        string_views(r@) == words(s@),
{
    let cs = chars_of(s);
    let mut out: Vec<String> = Vec::new();
    let mut cur: Vec<char> = Vec::new();
    let mut i: usize = 0;
    proof {
        assert(cs@.skip(0) =~= cs@);
        assert(cur@ =~= Seq::<char>::empty());
        assert(string_views(out@) + words(s@) =~= words(s@));
    }
    while i < cs.len()
        invariant
            cs@ == s@,
            i <= cs.len(),
            string_views(out@) + words_from(cs@.skip(i as int), cur@) == words(s@),
        decreases cs.len() - i,
    {
        let c = cs[i];
        proof {
            assert(cs@.skip(i as int).drop_first() =~= cs@.skip(i + 1));
        }
        if is_ascii_space_exec(c) {
            if cur.len() > 0 {
                let piece = string_of(cur.as_slice());
                proof {
                    assert(words_from(cs@.skip(i as int), cur@) == seq![cur@] + words_from(cs@.skip(i + 1), Seq::empty()));
                    assert(string_views(out@.push(piece)) + words_from(cs@.skip(i + 1), Seq::empty())
                        =~= string_views(out@) + (seq![cur@] + words_from(cs@.skip(i + 1), Seq::empty())));
                }
                out.push(piece);
                cur = Vec::new();
            } else {
                proof {
                    assert(cur@ =~= Seq::<char>::empty());
                    assert(words_from(cs@.skip(i as int), cur@) == Seq::<Seq<char>>::empty() + words_from(cs@.skip(i + 1), Seq::empty()));
                    assert(Seq::<Seq<char>>::empty() + words_from(cs@.skip(i + 1), Seq::empty())
                        =~= words_from(cs@.skip(i + 1), Seq::empty()));
                }
            }
        } else {
            proof {
                assert(words_from(cs@.skip(i as int), cur@) == words_from(cs@.skip(i + 1), cur@.push(c)));
            }
            cur.push(c);
        }
        i = i + 1;
    }
    proof {
        assert(cs@.skip(i as int) =~= Seq::<char>::empty());
    }
    if cur.len() > 0 {
        let piece = string_of(cur.as_slice());
        proof {
            assert(string_views(out@.push(piece)) =~= string_views(out@) + seq![cur@]);
        }
        out.push(piece);
    } else {
        proof {
            assert(string_views(out@) + Seq::<Seq<char>>::empty() =~= string_views(out@));
        }
    }
    out
}

/// The index of the last `c` in `s`, or -1.
pub open spec fn last_index_of(s: Seq<char>, c: char) -> int
    decreases s.len(),
{
    if s.len() == 0 {
        -1
    } else if s.last() == c {
        s.len() - 1
    } else {
        last_index_of(s.drop_last(), c)
    }
}

proof fn lemma_last_index_bounds(s: Seq<char>, c: char)
    ensures
        -1 <= last_index_of(s, c) < s.len(),
    decreases s.len(),
{
    if s.len() > 0 {
        lemma_last_index_bounds(s.drop_last(), c);
    }
}

fn last_index_exec(s: &Vec<char>, c: char) -> (r: Option<usize>)
    ensures
        match r {
            Some(i) => i == last_index_of(s@, c),
            None => last_index_of(s@, c) == -1,
        },
{
    let mut i: usize = s.len();
    assert(s@.take(i as int) =~= s@);
    while i > 0
        invariant
            i <= s.len(),
            last_index_of(s@, c) == last_index_of(s@.take(i as int), c),
        decreases i,
    {
        assert(s@.take(i as int).drop_last() =~= s@.take(i - 1));
        if s[i - 1] == c {
            return Some(i - 1);
        }
        i = i - 1;
    }
    None
}

/// The last component of a `/`-separated path.
pub open spec fn file_name_of(p: Seq<char>) -> Seq<char> {
    p.skip(last_index_of(p, '/') + 1)
}

/// The extension of a path: what follows the last `.` of its file name,
/// where that `.` is not the name's first character.
pub open spec fn extension_of(p: Seq<char>) -> Option<Seq<char>> {
    let f = file_name_of(p);
    let d = last_index_of(f, '.');
    if d <= 0 {
        None
    } else {
        Some(f.skip(d + 1))
    }
}

/// The extension of `path`, in the sense of `extension_of`.
pub fn extension(path: &str) -> (r: Option<String>)
    ensures
        match extension_of(path@) {
            Some(e) => r matches Some(x) && x@ == e,
            None => r is None,
        },
{
    let cs = chars_of(path);
    proof {
        lemma_last_index_bounds(cs@, '/');
    }
    let start: usize = match last_index_exec(&cs, '/') {
        Some(k) => k + 1,
        None => 0,
    };
    let mut name: Vec<char> = Vec::new();
    let mut i: usize = start;
    while i < cs.len()
        invariant
            start <= i <= cs.len(),
            name@ == cs@.subrange(start as int, i as int),
        decreases cs.len() - i,
    {
        name.push(cs[i]);
        i = i + 1;
    }
    assert(name@ =~= file_name_of(path@));
    proof {
        lemma_last_index_bounds(name@, '.');
    }
    let dot: usize = match last_index_exec(&name, '.') {
        Some(k) => k,
        None => {
            return None;
        },
    };
    if dot == 0 {
        return None;
    }
    let mut ext: Vec<char> = Vec::new();
    let mut j: usize = dot + 1;
    while j < name.len()
        invariant
            dot + 1 <= j <= name.len(),
            ext@ == name@.subrange(dot + 1, j as int),
        decreases name.len() - j,
    {
        ext.push(name[j]);
        j = j + 1;
    }
    assert(ext@ =~= name@.skip(dot + 1));
    Some(string_of(ext.as_slice()))
}

} // verus!
