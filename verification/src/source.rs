//! The analyzed source text and the name tables the analyzers keep.
use vstd::prelude::*;
use crate::text::{chars_of, trim, trimmed};

verus! {

/// The lines of the source, as character sequences.
pub open spec fn lines_of(v: Seq<String>) -> Seq<Seq<char>> {
    Seq::new(v.len(), |i: int| v[i]@)
}

/// Line `k` of the source without its leading and trailing blanks.
pub fn trimmed_line(source: &Vec<String>, k: usize) -> (r: Vec<char>)
    requires
        k < source@.len(),
    ensures
        r@ == trimmed(lines_of(source@)[k as int]),
{
    let c = chars_of(source[k].as_str());
    trim(c.as_slice())
}

/// A table from function names to line numbers, as the pairs it holds.
pub open spec fn entries_of(v: Seq<(String, usize)>) -> Seq<(Seq<char>, nat)> {
    Seq::new(v.len(), |i: int| (v[i].0@, v[i].1 as nat))
}

/// The line recorded for `name` in `m`: that of the first pair for `name`.
pub open spec fn find_entry(m: Seq<(Seq<char>, nat)>, name: Seq<char>) -> Option<nat>
    decreases m.len(),
{
    if m.len() == 0 {
        None
    } else if m[0].0 == name {
        Some(m[0].1)
    } else {
        find_entry(m.drop_first(), name)
    }
}

proof fn lemma_find_entry_step(m: Seq<(Seq<char>, nat)>, name: Seq<char>, i: int)
    requires
        0 <= i < m.len(),
        m[i].0 != name,
    ensures
        find_entry(m.subrange(i, m.len() as int), name) == find_entry(
            m.subrange(i + 1, m.len() as int),
            name,
        ),
{
    assert(m.subrange(i, m.len() as int).drop_first() =~= m.subrange(i + 1, m.len() as int));
}

/// No name is the key of two pairs of `m`.
pub open spec fn distinct_keys<V>(m: Seq<(Seq<char>, V)>) -> bool {
    forall|i: int, j: int| 0 <= i < j < m.len() ==> (#[trigger] m[i]).0 != (#[trigger] m[j]).0
}

/// No name occurs twice in `s`.
pub open spec fn distinct_names(s: Seq<Seq<char>>) -> bool {
    forall|i: int, j: int| 0 <= i < j < s.len() ==> #[trigger] s[i] != #[trigger] s[j]
}

/// A name without an entry is the key of no pair.
pub proof fn lemma_find_entry_absent(m: Seq<(Seq<char>, nat)>, name: Seq<char>)
    ensures
        find_entry(m, name) is None ==> forall|i: int| 0 <= i < m.len() ==> (#[trigger] m[i]).0
            != name,
    decreases m.len(),
{
    if m.len() > 0 {
        lemma_find_entry_absent(m.drop_first(), name);
        if find_entry(m, name) is None {
            assert forall|i: int| 0 <= i < m.len() implies (#[trigger] m[i]).0 != name by {
                if i > 0 {
                    assert(m[i] == m.drop_first()[i - 1]);
                }
            }
        }
    }
}

/// Adding a pair for a name that is the key of none keeps keys distinct.
pub proof fn lemma_push_distinct<V>(m: Seq<(Seq<char>, V)>, name: Seq<char>, v: V)
    requires
        distinct_keys(m),
        forall|i: int| 0 <= i < m.len() ==> (#[trigger] m[i]).0 != name,
    ensures
        distinct_keys(m.push((name, v))),
{
    let n = m.push((name, v));
    assert forall|i: int, j: int| 0 <= i < j < n.len() implies (#[trigger] n[i]).0 != (
    #[trigger] n[j]).0 by {
        assert(n[i] == m[i]);
        if j < m.len() {
            assert(n[j] == m[j]);
        }
    }
}

/// Adding a name that does not occur keeps names distinct.
pub proof fn lemma_push_distinct_name(s: Seq<Seq<char>>, name: Seq<char>)
    requires
        distinct_names(s),
        !s.contains(name),
    ensures
        distinct_names(s.push(name)),
{
    let n = s.push(name);
    assert forall|i: int, j: int| 0 <= i < j < n.len() implies #[trigger] n[i] != #[trigger] n[j]
        by {
        assert(n[i] == s[i]);
        if j < s.len() {
            assert(n[j] == s[j]);
        } else {
            assert(s.contains(s[i]));
        }
    }
}

/// The line recorded for `name` in the table `v`.
pub fn lookup(v: &Vec<(String, usize)>, name: &String) -> (r: Option<usize>)
    ensures
        match r {
            Some(k) => find_entry(entries_of(v@), name@) == Some(k as nat),
            None => find_entry(entries_of(v@), name@) is None,
        },
{
    let ghost m = entries_of(v@);
    assert(m.subrange(0, m.len() as int) =~= m);
    let mut i: usize = 0;
    while i < v.len()
        invariant
            0 <= i <= v@.len() == m.len(),
            m == entries_of(v@),
            find_entry(m, name@) == find_entry(m.subrange(i as int, m.len() as int), name@),
        decreases v.len() - i,
    {
        if v[i].0 == *name {
            return Some(v[i].1);
        }
        proof {
            lemma_find_entry_step(m, name@, i as int);
        }
        i = i + 1;
    }
    None
}

/// A copy of the table `v`.
pub fn clone_entries(v: &Vec<(String, usize)>) -> (r: Vec<(String, usize)>)
    ensures
        entries_of(r@) == entries_of(v@),
{
    let mut r: Vec<(String, usize)> = Vec::new();
    let mut i: usize = 0;
    while i < v.len()
        invariant
            0 <= i <= v@.len(),
            entries_of(r@) == entries_of(v@).take(i as int),
        decreases v.len() - i,
    {
        let ghost prev = r@;
        let name = v[i].0.clone();
        assert(name@ == v@[i as int].0@);
        r.push((name, v[i].1));
        assert(entries_of(r@) =~= entries_of(prev).push(entries_of(v@)[i as int]));
        assert(entries_of(v@).take(i + 1) =~= entries_of(v@).take(i as int).push(entries_of(v@)[i as int]));
        i = i + 1;
    }
    assert(entries_of(v@).take(v@.len() as int) =~= entries_of(v@));
    r
}

/// A list of names, as character sequences.
pub open spec fn names_of(v: Seq<String>) -> Seq<Seq<char>> {
    Seq::new(v.len(), |i: int| v[i]@)
}

/// Whether `name` is in the list `v`.
pub fn holds_name(v: &Vec<String>, name: &String) -> (r: bool)
    ensures
        r == names_of(v@).contains(name@),
{
    let mut i: usize = 0;
    while i < v.len()
        invariant
            0 <= i <= v@.len(),
            forall|j: int| 0 <= j < i ==> v@[j]@ != name@,
        decreases v.len() - i,
    {
        if v[i] == *name {
            assert(names_of(v@)[i as int] == name@);
            return true;
        }
        i = i + 1;
    }
    proof {
        if names_of(v@).contains(name@) {
            let j = choose|j: int| 0 <= j < names_of(v@).len() && names_of(v@)[j] == name@;
            assert(v@[j]@ == name@);
        }
    }
    false
}

/// A copy of the list `v`.
pub fn clone_names(v: &Vec<String>) -> (r: Vec<String>)
    ensures
        names_of(r@) == names_of(v@),
{
    let mut r: Vec<String> = Vec::new();
    let mut i: usize = 0;
    while i < v.len()
        invariant
            0 <= i <= v@.len(),
            names_of(r@) == names_of(v@).take(i as int),
        decreases v.len() - i,
    {
        let ghost prev = r@;
        let name = v[i].clone();
        assert(name@ == v@[i as int]@);
        r.push(name);
        assert(names_of(r@) =~= names_of(prev).push(names_of(v@)[i as int]));
        assert(names_of(v@).take(i + 1) =~= names_of(v@).take(i as int).push(names_of(v@)[i as int]));
        i = i + 1;
    }
    assert(names_of(v@).take(v@.len() as int) =~= names_of(v@));
    r
}

} // verus!
