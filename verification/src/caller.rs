//! The caller analyzer: the functions that call a function, level by level.
//!
//! A line (taken without outer blanks) holding `(` starts a definition when
//! it also holds `)` and the next line is exactly `{`, or when the next
//! line holds `)` and the one after it is exactly `{`; a header is looked
//! for only where the lines it is checked against exist. The defined name
//! is the first word followed by `(` on that line. Every other line that
//! holds `f(` is a call of `f` from the function defined last above it
//! (the empty name where none is).
//!
//! A result of `None` in the models below marks an input on which the
//! analysis cannot run to its end: a definition line without a name, a
//! recorded line past the last line, the word pattern not compiling, or a
//! level beyond `usize` (below the depth limit the search goes on until the
//! callers run out).
use vstd::prelude::*;
use crate::graph::{
    CallTree, FunctionNode, leaf, leaves, with_children, render, trees_of, write_node_yaml, indent_fits,
    within_depth, same_heads,
};
use crate::pattern::{Pattern, regex_compiles, regex_capture_group};
use crate::source::{
    lines_of, trimmed_line, names_of, holds_name, clone_names, distinct_keys, distinct_names,
    lemma_push_distinct, lemma_push_distinct_name,
};
use crate::text::{trimmed, contains, occurs_at, chars_of, string_of, has_infix, has_char, is_exactly};

verus! {

/// The pattern of a word followed by `(`, the word being capture group 1.
pub open spec fn word_call() -> Seq<char> {
    r"(\w+)\s*\("@
}

/// Line `index` starts a definition.
pub open spec fn is_definition(lines: Seq<Seq<char>>, index: int) -> bool {
    let cur = trimmed(lines[index]);
    &&& 0 <= index
    &&& index + 1 < lines.len()
    &&& contains(cur, seq!['('])
    &&& {
        ||| contains(cur, seq![')']) && trimmed(lines[index + 1]) == seq!['{']
        ||| index + 2 < lines.len() && contains(trimmed(lines[index + 1]), seq![')']) && trimmed(
            lines[index + 2],
        ) == seq!['{']
    }
}

/// The name a definition line gives: the first word followed by `(`.
pub open spec fn defined_name(line: Seq<char>) -> Option<Seq<char>> {
    match regex_capture_group(word_call(), line, 1) {
        Some(Some(n)) => Some(n),
        _ => None,
    }
}

/// The name at place `i` of `names`, `None` past its end.
pub open spec fn name_at(names: Seq<Option<Seq<char>>>, i: int) -> Option<Seq<char>> {
    if 0 <= i < names.len() {
        names[i]
    } else {
        None
    }
}

/// The calls of the function whose name followed by `(` is `paren`, from
/// line `i` on, inside the function `current` defined at line `at`, where
/// a definition at line `k` gives the name `name_at(names, k)`: the
/// callers' names and their definition lines, in order. `None` where a
/// definition line gives no name.
pub open spec fn scan_given(
    lines: Seq<Seq<char>>,
    paren: Seq<char>,
    i: nat,
    current: Seq<char>,
    at: nat,
    names: Seq<Option<Seq<char>>>,
) -> Option<(Seq<Seq<char>>, Seq<nat>)>
    decreases lines.len() - i,
{
    if i >= lines.len() {
        Some((Seq::empty(), Seq::empty()))
    } else if is_definition(lines, i as int) {
        match name_at(names, i as int) {
            None => None,
            Some(f) => scan_given(lines, paren, i + 1, f, i, names),
        }
    } else {
        match scan_given(lines, paren, i + 1, current, at, names) {
            None => None,
            Some((ns, ls)) => if contains(lines[i as int], paren) {
                Some((seq![current] + ns, seq![at] + ls))
            } else {
                Some((ns, ls))
            },
        }
    }
}

/// The name each line gives should it start a definition.
pub open spec fn defined_names(lines: Seq<Seq<char>>) -> Seq<Option<Seq<char>>> {
    Seq::new(lines.len(), |k: int| defined_name(lines[k]))
}

/// The calls of the function whose name followed by `(` is `paren`, from
/// line `i` on, inside the function `current` defined at line `at`: the
/// callers' names and their definition lines, in order.
pub open spec fn scan_calls(
    lines: Seq<Seq<char>>,
    paren: Seq<char>,
    i: nat,
    current: Seq<char>,
    at: nat,
) -> Option<(Seq<Seq<char>>, Seq<nat>)> {
    scan_given(lines, paren, i, current, at, defined_names(lines))
}

/// The names a list of optional strings holds, as texts.
pub open spec fn given_names(v: Seq<Option<String>>) -> Seq<Option<Seq<char>>> {
    Seq::new(
        v.len(),
        |k: int|
            match v[k] {
                Some(s) => Some(s@),
                None => None,
            },
    )
}

/// A scan reads the given names at definition lines only.
proof fn lemma_scan_given_agree(
    lines: Seq<Seq<char>>,
    paren: Seq<char>,
    i: nat,
    current: Seq<char>,
    at: nat,
    n1: Seq<Option<Seq<char>>>,
    n2: Seq<Option<Seq<char>>>,
)
    requires
        forall|k: int|
            #![trigger is_definition(lines, k)]
            i <= k < lines.len() && is_definition(lines, k) ==> name_at(n1, k) == name_at(n2, k),
    ensures
        scan_given(lines, paren, i, current, at, n1) == scan_given(lines, paren, i, current, at, n2),
    decreases lines.len() - i,
{
    if i < lines.len() {
        if is_definition(lines, i as int) {
            match name_at(n1, i as int) {
                Some(f) => lemma_scan_given_agree(lines, paren, i + 1, f, i, n1, n2),
                None => {},
            }
        } else {
            lemma_scan_given_agree(lines, paren, i + 1, current, at, n1, n2);
        }
    }
}

/// The names defined at the recorded lines `ls`, in order.
pub open spec fn names_at(lines: Seq<Seq<char>>, ls: Seq<nat>) -> Option<Seq<Seq<char>>>
    decreases ls.len(),
{
    if ls.len() == 0 {
        Some(Seq::empty())
    } else {
        match names_at(lines, ls.drop_last()) {
            None => None,
            Some(ns) => if ls.last() >= lines.len() {
                None
            } else {
                match defined_name(trimmed(lines[ls.last() as int])) {
                    None => None,
                    Some(n) => Some(ns.push(n)),
                }
            },
        }
    }
}

/// The caller lines recorded for `name` in `m`: those of the first entry for it.
pub open spec fn find_lines(m: Seq<(Seq<char>, Seq<nat>)>, name: Seq<char>) -> Option<Seq<nat>>
    decreases m.len(),
{
    if m.len() == 0 {
        None
    } else if m[0].0 == name {
        Some(m[0].1)
    } else {
        find_lines(m.drop_first(), name)
    }
}

/// What the caller analyzer remembers between lookups: the definition
/// lines of the callers of each function looked up with success, and the
/// functions found uncalled.
pub struct CallerMemo {
    pub callers: Seq<(Seq<char>, Seq<nat>)>,
    pub unused: Seq<Seq<char>>,
}

/// The functions that call `name`, and what is remembered afterwards.
pub open spec fn callers_of(lines: Seq<Seq<char>>, name: Seq<char>, memo: CallerMemo) -> Option<
    (Seq<Seq<char>>, CallerMemo),
> {
    if memo.unused.contains(name) {
        Some((Seq::empty(), memo))
    } else {
        match find_lines(memo.callers, name) {
            Some(ls) => match names_at(lines, ls) {
                Some(ns) => Some((ns, memo)),
                None => None,
            },
            None => match scan_calls(lines, name.push('('), 0, Seq::empty(), 0) {
                None => None,
                Some((ns, ls)) => if ns.len() == 0 {
                    Some(
                        (
                            ns,
                            CallerMemo { callers: memo.callers, unused: memo.unused.push(name) },
                        ),
                    )
                } else {
                    Some(
                        (
                            ns,
                            CallerMemo {
                                callers: memo.callers.push((name, ls)),
                                unused: memo.unused,
                            },
                        ),
                    )
                },
            },
        }
    }
}

/// The graph below `t` grown for the limit `max`: a node not at level `max` gets
/// its callers appended as children, and then each child, old and new, is
/// grown in turn. Below `max` the growth stops where the calls run out, or
/// fails where a level would pass `usize::MAX`.
pub open spec fn grow(lines: Seq<Seq<char>>, t: CallTree, max: nat, memo: CallerMemo) -> Option<
    (CallTree, CallerMemo),
>
    decreases usize::MAX + 1 - t.depth, 1nat, 0nat,
{
    if t.depth == max {
        Some((t, memo))
    } else {
        match callers_of(lines, t.name, memo) {
            None => None,
            Some((names, m1)) => if names.len() > 0 && t.depth + 1 > usize::MAX {
                None
            } else { match grow_each(
                lines,
                t.children + leaves(names, t.depth),
                t.depth,
                max,
                m1,
            ) {
                None => None,
                Some((kids, m2)) => Some((with_children(t, kids), m2)),
            } },
        }
    }
}

/// The nodes `ts` (children of a node at level `d`) grown from left to right.
pub open spec fn grow_each(
    lines: Seq<Seq<char>>,
    ts: Seq<CallTree>,
    d: nat,
    max: nat,
    memo: CallerMemo,
) -> Option<(Seq<CallTree>, CallerMemo)>
    decreases usize::MAX + 1 - d, 0nat, ts.len(),
{
    if ts.len() == 0 {
        Some((Seq::empty(), memo))
    } else {
        match grow_each(lines, ts.drop_last(), d, max, memo) {
            None => None,
            Some((ks, m)) => if ts.last().depth == d + 1 && d + 1 <= usize::MAX {
                match grow(lines, ts.last(), max, m) {
                    None => None,
                    Some((k, m2)) => Some((ks.push(k), m2)),
                }
            } else {
                None
            },
        }
    }
}

/// The definition lines: a line holding `(` (taken without outer blanks)
/// starts a definition when it also holds `)` and the next line is exactly
/// `{`, or when the next line holds `)` and the one after it is exactly `{`,
/// whatever else the lines hold; no other line starts one.
pub proof fn law_definition_lines(lines: Seq<Seq<char>>, index: int)
    ensures
        0 <= index && index + 1 < lines.len() && contains(trimmed(lines[index]), seq!['('])
            && contains(trimmed(lines[index]), seq![')']) && trimmed(lines[index + 1]) == seq!['{']
            ==> is_definition(lines, index),
        0 <= index && index + 2 < lines.len() && contains(trimmed(lines[index]), seq!['('])
            && contains(trimmed(lines[index + 1]), seq![')']) && trimmed(lines[index + 2]) == seq![
            '{',
        ] ==> is_definition(lines, index),
        is_definition(lines, index) ==> {
            &&& 0 <= index
            &&& contains(trimmed(lines[index]), seq!['('])
            &&& {
                ||| index + 1 < lines.len() && contains(trimmed(lines[index]), seq![')'])
                    && trimmed(lines[index + 1]) == seq!['{']
                ||| index + 2 < lines.len() && contains(trimmed(lines[index + 1]), seq![')'])
                    && trimmed(lines[index + 2]) == seq!['{']
            }
        },
{
}

/// The number of lines from `i` on that start no definition and hold `paren`.
pub open spec fn calling_lines(lines: Seq<Seq<char>>, paren: Seq<char>, i: nat) -> nat
    decreases lines.len() - i,
{
    if i >= lines.len() {
        0
    } else {
        calling_lines(lines, paren, i + 1) + if !is_definition(lines, i as int) && contains(
            lines[i as int],
            paren,
        ) {
            1nat
        } else {
            0nat
        }
    }
}

/// What a scan finds: it succeeds exactly when every definition line from
/// `i` on gives a name; then it finds one caller per line that starts no
/// definition and holds `paren`, whatever else that line holds, and each
/// caller is either the function it started in (`current`, defined at
/// `at`) or a function defined at a definition line from `i` on, named as
/// that line gives it.
pub proof fn law_scan_callers(
    lines: Seq<Seq<char>>,
    paren: Seq<char>,
    i: nat,
    current: Seq<char>,
    at: nat,
    names: Seq<Option<Seq<char>>>,
)
    ensures
        scan_given(lines, paren, i, current, at, names) is Some <==> forall|k: int|
            #![trigger is_definition(lines, k)]
            i <= k < lines.len() && is_definition(lines, k) ==> name_at(names, k) is Some,
        scan_given(lines, paren, i, current, at, names) matches Some((ns, ls)) ==> {
            &&& ns.len() == calling_lines(lines, paren, i)
            &&& ls.len() == ns.len()
            &&& forall|m: int|
                0 <= m < ls.len() ==> (#[trigger] ls[m] == at && ns[m] == current) || (i <= ls[m]
                    < lines.len() && is_definition(lines, ls[m] as int) && name_at(
                    names,
                    ls[m] as int,
                ) == Some(ns[m]))
        },
    decreases lines.len() - i,
{
    if i < lines.len() {
        if is_definition(lines, i as int) {
            match name_at(names, i as int) {
                Some(f) => {
                    law_scan_callers(lines, paren, i + 1, f, i, names);
                    assert((forall|k: int|
                        #![trigger is_definition(lines, k)]
                        i <= k < lines.len() && is_definition(lines, k) ==> name_at(names, k) is Some)
                        <==> (forall|k: int|
                        #![trigger is_definition(lines, k)]
                        i + 1 <= k < lines.len() && is_definition(lines, k) ==> name_at(names, k) is Some));
                },
                None => {},
            }
        } else {
            law_scan_callers(lines, paren, i + 1, current, at, names);
            assert((forall|k: int|
                #![trigger is_definition(lines, k)]
                i <= k < lines.len() && is_definition(lines, k) ==> name_at(names, k) is Some)
                <==> (forall|k: int|
                #![trigger is_definition(lines, k)]
                i + 1 <= k < lines.len() && is_definition(lines, k) ==> name_at(names, k) is Some));
            match scan_given(lines, paren, i + 1, current, at, names) {
                Some((ns, ls)) => {
                    if contains(lines[i as int], paren) {
                        let ns2 = seq![current] + ns;
                        let ls2 = seq![at] + ls;
                        assert forall|m: int| 0 <= m < ls2.len() implies (#[trigger] ls2[m] == at
                            && ns2[m] == current) || (i <= ls2[m] < lines.len() && is_definition(
                            lines,
                            ls2[m] as int,
                        ) && name_at(names, ls2[m] as int) == Some(ns2[m])) by {
                            if m > 0 {
                                assert(ls2[m] == ls[m - 1]);
                                assert(ns2[m] == ns[m - 1]);
                            }
                        }
                    }
                },
                None => {},
            }
        }
    }
}

/// One caller: in four lines where the first holds `(` and `)` (without
/// outer blanks) and gives the name `f`, the second is `{`, the third calls
/// `name` and the fourth is `}`, and where neither the second nor the
/// fourth holds `name(`, a fresh lookup of `name` finds exactly the caller
/// `f`, and remembers line 0 for `name`.
pub proof fn law_one_caller(lines: Seq<Seq<char>>, name: Seq<char>, f: Seq<char>)
    requires
        lines.len() == 4,
        contains(trimmed(lines[0]), seq!['(']),
        contains(trimmed(lines[0]), seq![')']),
        trimmed(lines[1]) == seq!['{'],
        trimmed(lines[3]) == seq!['}'],
        contains(lines[2], name.push('(')),
        !contains(lines[1], name.push('(')),
        !contains(lines[3], name.push('(')),
        defined_name(lines[0]) == Some(f),
    ensures
        callers_of(lines, name, CallerMemo { callers: Seq::empty(), unused: Seq::empty() }) == Some(
            (
                seq![f],
                CallerMemo { callers: seq![(name, seq![0nat])], unused: Seq::empty() },
            ),
        ),
{
    let paren = name.push('(');
    let dn = defined_names(lines);
    assert(!contains(seq!['{'], seq!['('])) by {
        if contains(seq!['{'], seq!['(']) {
            let i = choose|i: int| occurs_at(seq!['{'], seq!['('], i);
            assert(seq!['{'].subrange(i, i + 1)[0] == seq!['{'][i]);
        }
    }
    assert(!contains(seq!['}'], seq!['('])) by {
        if contains(seq!['}'], seq!['(']) {
            let i = choose|i: int| occurs_at(seq!['}'], seq!['('], i);
            assert(seq!['}'].subrange(i, i + 1)[0] == seq!['}'][i]);
        }
    }
    assert(seq!['}'] != seq!['{']) by {
        assert(seq!['}'][0] != seq!['{'][0]);
    }
    assert(is_definition(lines, 0));
    assert(!is_definition(lines, 1));
    assert(!is_definition(lines, 2));
    assert(!is_definition(lines, 3));
    assert(name_at(dn, 0) == Some(f));
    assert(scan_given(lines, paren, 4, f, 0, dn) == Some((Seq::<Seq<char>>::empty(), Seq::<nat>::empty())));
    assert(scan_given(lines, paren, 3, f, 0, dn) == Some((Seq::<Seq<char>>::empty(), Seq::<nat>::empty())));
    assert(scan_given(lines, paren, 2, f, 0, dn) == Some((seq![f] + Seq::<Seq<char>>::empty(), seq![0nat] + Seq::<nat>::empty())));
    assert(seq![f] + Seq::<Seq<char>>::empty() =~= seq![f]);
    assert(seq![0nat] + Seq::<nat>::empty() =~= seq![0nat]);
    assert(scan_given(lines, paren, 1, f, 0, dn) == Some((seq![f], seq![0nat])));
    assert(scan_given(lines, paren, 0, Seq::empty(), 0, dn) == Some((seq![f], seq![0nat])));
    assert(find_lines(Seq::<(Seq<char>, Seq<nat>)>::empty(), name) is None);
    assert(Seq::<(Seq<char>, Seq<nat>)>::empty().push((name, seq![0nat])) =~= seq![(name, seq![0nat])]);
}

/// Growing a list fails when growing one of its prefixes fails.
proof fn lemma_grow_each_prefix_fails(
    lines: Seq<Seq<char>>,
    ts: Seq<CallTree>,
    d: nat,
    max: nat,
    memo: CallerMemo,
    k: int,
)
    requires
        0 <= k <= ts.len(),
        grow_each(lines, ts.take(k), d, max, memo) is None,
    ensures
        grow_each(lines, ts, d, max, memo) is None,
    decreases ts.len() - k,
{
    if k < ts.len() {
        assert(ts.take(k + 1).drop_last() =~= ts.take(k));
        lemma_grow_each_prefix_fails(lines, ts, d, max, memo, k + 1);
    } else {
        assert(ts.take(k) =~= ts);
    }
}

/// Growing keeps the names and levels of the nodes grown, in order.
proof fn lemma_grow_each_heads(
    lines: Seq<Seq<char>>,
    ts: Seq<CallTree>,
    d: nat,
    max: nat,
    memo: CallerMemo,
)
    ensures
        grow_each(lines, ts, d, max, memo) matches Some((ks, _)) ==> same_heads(ks, ts),
    decreases ts.len(),
{
    if ts.len() > 0 {
        lemma_grow_each_heads(lines, ts.drop_last(), d, max, memo);
        match grow_each(lines, ts.drop_last(), d, max, memo) {
            Some((ks0, m)) => {
                match grow(lines, ts.last(), max, m) {
                    Some((k, _)) => {
                        assert(k.name == ts.last().name && k.depth == ts.last().depth);
                        let ks = ks0.push(k);
                        assert forall|i: int| 0 <= i < ks.len() implies (#[trigger] ks[i]).name
                            == ts[i].name && ks[i].depth == ts[i].depth by {
                            if i < ks0.len() {
                                assert(ts[i] == ts.drop_last()[i]);
                            }
                        }
                    },
                    None => {},
                }
            },
            None => {},
        }
    }
}

/// The children of a grown node: a node at the depth limit is left as it
/// is; any other keeps its children, in order, and gets one more child
/// per line that calls it, in the order of the lines, one level below it,
/// each named after the function defined above that line.
pub proof fn law_grown_children(
    lines: Seq<Seq<char>>,
    t: CallTree,
    max: nat,
    memo: CallerMemo,
)
    ensures
        t.depth == max ==> grow(lines, t, max, memo) == Some((t, memo)),
        t.depth != max ==> (grow(lines, t, max, memo) matches Some((g, _)) ==> {
            &&& callers_of(lines, t.name, memo) matches Some((names, _))
            &&& g.name == t.name
            &&& g.depth == t.depth
            &&& same_heads(g.children, t.children + leaves(names, t.depth))
        }),
{
    if t.depth != max {
        match callers_of(lines, t.name, memo) {
            Some((names, m1)) => {
                lemma_grow_each_heads(lines, t.children + leaves(names, t.depth), t.depth, max, m1);
            },
            None => {},
        }
    }
}

proof fn lemma_grow_within(lines: Seq<Seq<char>>, t: CallTree, max: nat, memo: CallerMemo)
    requires
        within_depth(t, max),
    ensures
        grow(lines, t, max, memo) matches Some((g, _)) ==> within_depth(g, max),
    decreases usize::MAX + 1 - t.depth, 1nat, 0nat,
{
    if t.depth < max {
        match callers_of(lines, t.name, memo) {
            Some((names, m1)) => {
                let kids = t.children + leaves(names, t.depth);
                assert forall|i: int| 0 <= i < kids.len() implies within_depth(
                    #[trigger] kids[i],
                    max,
                ) by {
                    if i < t.children.len() {
                        assert(kids[i] == t.children[i]);
                    } else {
                        assert(kids[i].children.len() == 0);
                    }
                }
                lemma_grow_each_within(lines, kids, t.depth, max, m1);
            },
            None => {},
        }
    }
}

proof fn lemma_grow_each_within(
    lines: Seq<Seq<char>>,
    ts: Seq<CallTree>,
    d: nat,
    max: nat,
    memo: CallerMemo,
)
    requires
        forall|i: int| 0 <= i < ts.len() ==> within_depth(#[trigger] ts[i], max),
    ensures
        grow_each(lines, ts, d, max, memo) matches Some((ks, _)) ==> forall|i: int|
            0 <= i < ks.len() ==> within_depth(#[trigger] ks[i], max),
    decreases usize::MAX + 1 - d, 0nat, ts.len(),
{
    if ts.len() > 0 {
        assert forall|i: int| 0 <= i < ts.drop_last().len() implies within_depth(
            #[trigger] ts.drop_last()[i],
            max,
        ) by {
            assert(ts.drop_last()[i] == ts[i]);
        }
        lemma_grow_each_within(lines, ts.drop_last(), d, max, memo);
        match grow_each(lines, ts.drop_last(), d, max, memo) {
            Some((ks, m)) => {
                if ts.last().depth == d + 1 && d + 1 <= usize::MAX {
                    lemma_grow_within(lines, ts.last(), max, m);
                }
            },
            None => {},
        }
    }
}

/// The depth limit: growing a graph none of whose nodes lies deeper than
/// level `max` gives a graph none of whose nodes lies deeper than `max`.
pub proof fn law_depth_limit(lines: Seq<Seq<char>>, t: CallTree, max: nat, memo: CallerMemo)
    requires
        within_depth(t, max),
    ensures
        grow(lines, t, max, memo) matches Some((g, _)) ==> within_depth(g, max),
{
    lemma_grow_within(lines, t, max, memo);
}

/// A name without an entry is the key of no entry.
proof fn lemma_find_lines_absent(m: Seq<(Seq<char>, Seq<nat>)>, name: Seq<char>)
    ensures
        find_lines(m, name) is None ==> forall|i: int| 0 <= i < m.len() ==> (#[trigger] m[i]).0
            != name,
        find_lines(m, name) matches Some(ls) ==> exists|i: int|
            0 <= i < m.len() && (#[trigger] m[i]).0 == name && m[i].1 == ls,
    decreases m.len(),
{
    if m.len() > 0 {
        lemma_find_lines_absent(m.drop_first(), name);
        if m[0].0 != name {
            assert forall|i: int| 0 <= i < m.len() && i > 0 implies m[i] == m.drop_first()[i
                - 1] by {}
            if find_lines(m, name) is None {
                assert forall|i: int| 0 <= i < m.len() implies (#[trigger] m[i]).0 != name by {
                    if i > 0 {
                        assert(m[i] == m.drop_first()[i - 1]);
                    }
                }
            }
            match find_lines(m, name) {
                Some(ls) => {
                    let k = choose|k: int|
                        0 <= k < m.drop_first().len() && (#[trigger] m.drop_first()[k]).0 == name
                            && m.drop_first()[k].1 == ls;
                    assert(m[k + 1] == m.drop_first()[k]);
                },
                None => {},
            }
        } else {
            assert(m[0].0 == name);
        }
    }
}

/// What is remembered holds each name at most once: no function is recorded
/// twice with callers or twice as uncalled, nor both.
pub open spec fn memo_well_formed(m: CallerMemo) -> bool {
    &&& distinct_keys(m.callers)
    &&& distinct_names(m.unused)
    &&& forall|i: int| 0 <= i < m.callers.len() ==> !m.unused.contains((#[trigger] m.callers[i]).0)
}

proof fn lemma_callers_well_formed(lines: Seq<Seq<char>>, name: Seq<char>, memo: CallerMemo)
    requires
        memo_well_formed(memo),
    ensures
        callers_of(lines, name, memo) matches Some((_, m)) ==> memo_well_formed(m),
{
    lemma_find_lines_absent(memo.callers, name);
    if !memo.unused.contains(name) && find_lines(memo.callers, name) is None {
        match scan_calls(lines, name.push('('), 0, Seq::empty(), 0) {
            Some((ns, ls)) => {
                if ns.len() == 0 {
                    lemma_push_distinct_name(memo.unused, name);
                    let u = memo.unused.push(name);
                    assert forall|i: int| 0 <= i < memo.callers.len() implies !u.contains(
                        (#[trigger] memo.callers[i]).0,
                    ) by {
                        assert(!memo.unused.contains(memo.callers[i].0));
                        if u.contains(memo.callers[i].0) {
                            let k = choose|k: int| 0 <= k < u.len() && u[k] == memo.callers[i].0;
                            if k < memo.unused.len() {
                                assert(u[k] == memo.unused[k]);
                            }
                        }
                    }
                } else {
                    lemma_push_distinct(memo.callers, name, ls);
                    let n = memo.callers.push((name, ls));
                    assert forall|i: int| 0 <= i < n.len() implies !memo.unused.contains(
                        (#[trigger] n[i]).0,
                    ) by {
                        if i < memo.callers.len() {
                            assert(n[i] == memo.callers[i]);
                        }
                    }
                }
            },
            None => {},
        }
    }
}

proof fn lemma_grow_well_formed(lines: Seq<Seq<char>>, t: CallTree, max: nat, memo: CallerMemo)
    requires
        memo_well_formed(memo),
    ensures
        grow(lines, t, max, memo) matches Some((_, m)) ==> memo_well_formed(m),
    decreases usize::MAX + 1 - t.depth, 1nat, 0nat,
{
    if t.depth != max {
        lemma_callers_well_formed(lines, t.name, memo);
        match callers_of(lines, t.name, memo) {
            Some((names, m1)) => {
                if !(names.len() > 0 && t.depth + 1 > usize::MAX) {
                    lemma_grow_each_well_formed(
                        lines,
                        t.children + leaves(names, t.depth),
                        t.depth,
                        max,
                        m1,
                    );
                }
            },
            None => {},
        }
    }
}

proof fn lemma_grow_each_well_formed(
    lines: Seq<Seq<char>>,
    ts: Seq<CallTree>,
    d: nat,
    max: nat,
    memo: CallerMemo,
)
    requires
        memo_well_formed(memo),
    ensures
        grow_each(lines, ts, d, max, memo) matches Some((_, m)) ==> memo_well_formed(m),
    decreases usize::MAX + 1 - d, 0nat, ts.len(),
{
    if ts.len() > 0 {
        lemma_grow_each_well_formed(lines, ts.drop_last(), d, max, memo);
        match grow_each(lines, ts.drop_last(), d, max, memo) {
            Some((_, m)) => {
                if ts.last().depth == d + 1 && d + 1 <= usize::MAX {
                    lemma_grow_well_formed(lines, ts.last(), max, m);
                }
            },
            None => {},
        }
    }
}

/// What is remembered holds each name at most once, and growing keeps it so.
pub proof fn law_memo_well_formed(lines: Seq<Seq<char>>, t: CallTree, max: nat, memo: CallerMemo)
    requires
        memo_well_formed(memo),
    ensures
        grow(lines, t, max, memo) matches Some((_, m)) ==> memo_well_formed(m),
{
    lemma_grow_well_formed(lines, t, max, memo);
}

/// Every remembered lookup reads back as a fresh one gives it: the lines
/// recorded for a name are those a reading of all lines finds, and the
/// names defined at them (each line taken without outer blanks) are the
/// callers that reading finds; a name recorded as uncalled has no callers.
pub open spec fn memo_reads_back(lines: Seq<Seq<char>>, memo: CallerMemo) -> bool {
    &&& forall|i: int|
        0 <= i < memo.callers.len() ==> match scan_calls(
            lines,
            (#[trigger] memo.callers[i]).0.push('('),
            0,
            Seq::empty(),
            0,
        ) {
            Some((ns, ls)) => ls == memo.callers[i].1 && names_at(lines, ls) == Some(ns),
            None => false,
        }
    &&& forall|i: int|
        0 <= i < memo.unused.len() ==> match scan_calls(
            lines,
            (#[trigger] memo.unused[i]).push('('),
            0,
            Seq::empty(),
            0,
        ) {
            Some((ns, _)) => ns.len() == 0,
            None => false,
        }
}

/// Repeating a lookup gives the same callers: where every remembered lookup
/// reads back as a fresh one gives it, looking a name up gives the callers
/// a fresh analyzer finds, in order.
pub proof fn law_lookup_repeats(lines: Seq<Seq<char>>, name: Seq<char>, memo: CallerMemo)
    requires
        memo_reads_back(lines, memo),
    ensures
        match (
            callers_of(lines, name, memo),
            callers_of(lines, name, CallerMemo { callers: Seq::empty(), unused: Seq::empty() }),
        ) {
            (Some((c1, _)), Some((c2, _))) => c1 == c2,
            (None, None) => true,
            _ => false,
        },
{
    lemma_find_lines_absent(memo.callers, name);
    if memo.unused.contains(name) {
        let k = choose|k: int| 0 <= k < memo.unused.len() && memo.unused[k] == name;
        assert(memo.unused[k] == name);
    } else {
        match find_lines(memo.callers, name) {
            Some(ls) => {
                let k = choose|k: int|
                    0 <= k < memo.callers.len() && (#[trigger] memo.callers[k]).0 == name
                        && memo.callers[k].1 == ls;
                assert(memo.callers[k].0 == name);
            },
            None => {},
        }
    }
}

/// Each definition line names the same function whether or not it is taken
/// with its outer blanks.
pub open spec fn names_keep_trimmed(lines: Seq<Seq<char>>) -> bool {
    forall|j: int|
        #![trigger is_definition(lines, j)]
        is_definition(lines, j) ==> defined_name(trimmed(lines[j])) == defined_name(lines[j])
}

/// Every line that calls `name` and starts no definition lies below some
/// definition line.
pub open spec fn calls_below_definitions(lines: Seq<Seq<char>>, name: Seq<char>) -> bool {
    forall|i: int|
        #![trigger contains(lines[i], name.push('('))]
        0 <= i < lines.len() && !is_definition(lines, i) && contains(lines[i], name.push('('))
            ==> exists|j: int| 0 <= j < i && is_definition(lines, j)
}

/// The recorded lines `ls` read back as `ns` when each of them is a line
/// defining the name at its place in `ns`.
proof fn lemma_names_at_pointwise(lines: Seq<Seq<char>>, ls: Seq<nat>, ns: Seq<Seq<char>>)
    requires
        ns.len() == ls.len(),
        forall|k: int|
            0 <= k < ls.len() ==> #[trigger] ls[k] < lines.len() && defined_name(
                trimmed(lines[ls[k] as int]),
            ) == Some(ns[k]),
    ensures
        names_at(lines, ls) == Some(ns),
    decreases ls.len(),
{
    if ls.len() > 0 {
        let l0 = ls.drop_last();
        let n0 = ns.drop_last();
        assert forall|k: int| 0 <= k < l0.len() implies #[trigger] l0[k] < lines.len()
            && defined_name(trimmed(lines[l0[k] as int])) == Some(n0[k]) by {
            assert(l0[k] == ls[k]);
        }
        lemma_names_at_pointwise(lines, l0, n0);
        assert(ls.last() == ls[ls.len() - 1]);
        assert(n0.push(ns.last()) =~= ns);
    }
}

/// A scan from line `i` on, where every call line lies below a definition
/// and every definition names the same function trimmed or not, records
/// for each caller a line defining it.
proof fn lemma_scan_reads_back(
    lines: Seq<Seq<char>>,
    name: Seq<char>,
    i: nat,
    current: Seq<char>,
    at: nat,
)
    requires
        names_keep_trimmed(lines),
        calls_below_definitions(lines, name),
        (exists|j: int| 0 <= j < i && is_definition(lines, j)) ==> at < lines.len()
            && is_definition(lines, at as int) && defined_name(lines[at as int]) == Some(current),
    ensures
        scan_calls(lines, name.push('('), i, current, at) matches Some((ns, ls)) ==> {
            &&& ns.len() == ls.len()
            &&& forall|k: int|
                0 <= k < ls.len() ==> #[trigger] ls[k] < lines.len() && defined_name(
                    trimmed(lines[ls[k] as int]),
                ) == Some(ns[k])
        },
    decreases lines.len() - i,
{
    let paren = name.push('(');
    if i < lines.len() {
        if is_definition(lines, i as int) {
            match defined_name(lines[i as int]) {
                Some(f) => {
                    lemma_scan_reads_back(lines, name, i + 1, f, i);
                },
                None => {},
            }
        } else {
            if exists|j: int| 0 <= j < i + 1 && is_definition(lines, j) {
                let j = choose|j: int| 0 <= j < i + 1 && is_definition(lines, j);
                assert(j != i);
                assert(0 <= j < i && is_definition(lines, j));
            }
            lemma_scan_reads_back(lines, name, i + 1, current, at);
            match scan_calls(lines, paren, i + 1, current, at) {
                Some((ns, ls)) => {
                    if contains(lines[i as int], paren) {
                        assert(contains(lines[i as int], name.push('(')));
                        let j = choose|j: int| 0 <= j < i && is_definition(lines, j);
                        assert(is_definition(lines, at as int));
                        let ns2 = seq![current] + ns;
                        let ls2 = seq![at] + ls;
                        assert forall|k: int| 0 <= k < ls2.len() implies #[trigger] ls2[k]
                            < lines.len() && defined_name(trimmed(lines[ls2[k] as int])) == Some(
                            ns2[k],
                        ) by {
                            if k > 0 {
                                assert(ls2[k] == ls[k - 1]);
                                assert(ns2[k] == ns[k - 1]);
                            }
                        }
                    }
                },
                None => {},
            }
        }
    }
}

/// The remembered lookups for `name` and for everything else, with an
/// entry for `name` added at the end where none was.
proof fn lemma_find_lines_pushed(m: Seq<(Seq<char>, Seq<nat>)>, name: Seq<char>, ls: Seq<nat>)
    requires
        forall|i: int| 0 <= i < m.len() ==> (#[trigger] m[i]).0 != name,
    ensures
        find_lines(m.push((name, ls)), name) == Some(ls),
    decreases m.len(),
{
    if m.len() > 0 {
        assert(m.push((name, ls)).drop_first() =~= m.drop_first().push((name, ls)));
        assert forall|i: int| 0 <= i < m.drop_first().len() implies (#[trigger] m.drop_first()[
            i]).0 != name by {
            assert(m.drop_first()[i] == m[i + 1]);
        }
        assert(m.push((name, ls))[0] == m[0]);
        lemma_find_lines_pushed(m.drop_first(), name, ls);
    } else {
        assert(m.push((name, ls))[0] == (name, ls));
    }
}

/// A lookup leaves a memory that reads back, and looking the same name up
/// again gives the same callers: where every remembered lookup reads back,
/// every definition line names the same function with or without its outer
/// blanks, and every line calling `name` lies below a definition, the
/// callers found and then those found again on the memory left are equal,
/// in order, and the second lookup changes nothing.
pub proof fn law_repeated_lookup(lines: Seq<Seq<char>>, name: Seq<char>, memo: CallerMemo)
    requires
        memo_reads_back(lines, memo),
        names_keep_trimmed(lines),
        calls_below_definitions(lines, name),
    ensures
        callers_of(lines, name, memo) matches Some((ns, m1)) ==> {
            &&& memo_reads_back(lines, m1)
            &&& callers_of(lines, name, m1) == Some((ns, m1))
        },
{
    lemma_find_lines_absent(memo.callers, name);
    if !memo.unused.contains(name) && find_lines(memo.callers, name) is None {
        lemma_scan_reads_back(lines, name, 0, Seq::empty(), 0);
        match scan_calls(lines, name.push('('), 0, Seq::empty(), 0) {
            Some((ns, ls)) => {
                if ns.len() == 0 {
                    let m1 = CallerMemo { callers: memo.callers, unused: memo.unused.push(name) };
                    assert forall|i: int| 0 <= i < m1.unused.len() implies match scan_calls(
                        lines,
                        (#[trigger] m1.unused[i]).push('('),
                        0,
                        Seq::empty(),
                        0,
                    ) {
                        Some((ns, _)) => ns.len() == 0,
                        None => false,
                    } by {
                        if i < memo.unused.len() {
                            assert(m1.unused[i] == memo.unused[i]);
                        }
                    }
                    assert(m1.unused[memo.unused.len() as int] == name);
                    assert(ns =~= Seq::<Seq<char>>::empty());
                } else {
                    lemma_names_at_pointwise(lines, ls, ns);
                    let m1 = CallerMemo { callers: memo.callers.push((name, ls)), unused: memo.unused };
                    assert forall|i: int| 0 <= i < m1.callers.len() implies match scan_calls(
                        lines,
                        (#[trigger] m1.callers[i]).0.push('('),
                        0,
                        Seq::empty(),
                        0,
                    ) {
                        Some((ns, ls)) => ls == m1.callers[i].1 && names_at(lines, ls) == Some(ns),
                        None => false,
                    } by {
                        if i < memo.callers.len() {
                            assert(m1.callers[i] == memo.callers[i]);
                        }
                    }
                    lemma_find_lines_pushed(memo.callers, name, ls);
                }
            },
            None => {},
        }
    }
}

/// Every line that calls a function and starts no definition lies below
/// some definition line.
pub open spec fn all_calls_below_definitions(lines: Seq<Seq<char>>) -> bool {
    forall|name: Seq<char>| #[trigger] calls_below_definitions(lines, name)
}

proof fn lemma_callers_reads_back(
    lines: Seq<Seq<char>>,
    name: Seq<char>,
    m1: CallerMemo,
    m2: CallerMemo,
)
    requires
        memo_reads_back(lines, m1),
        memo_reads_back(lines, m2),
        names_keep_trimmed(lines),
        calls_below_definitions(lines, name),
    ensures
        match (callers_of(lines, name, m1), callers_of(lines, name, m2)) {
            (Some((c1, n1)), Some((c2, n2))) => c1 == c2 && memo_reads_back(lines, n1)
                && memo_reads_back(lines, n2),
            (None, None) => true,
            _ => false,
        },
{
    law_lookup_repeats(lines, name, m1);
    law_lookup_repeats(lines, name, m2);
    law_repeated_lookup(lines, name, m1);
    law_repeated_lookup(lines, name, m2);
}

proof fn lemma_grow_reads_back(
    lines: Seq<Seq<char>>,
    t: CallTree,
    max: nat,
    m1: CallerMemo,
    m2: CallerMemo,
)
    requires
        memo_reads_back(lines, m1),
        memo_reads_back(lines, m2),
        names_keep_trimmed(lines),
        all_calls_below_definitions(lines),
    ensures
        match (grow(lines, t, max, m1), grow(lines, t, max, m2)) {
            (Some((g1, n1)), Some((g2, n2))) => g1 == g2 && memo_reads_back(lines, n1)
                && memo_reads_back(lines, n2),
            (None, None) => true,
            _ => false,
        },
    decreases usize::MAX + 1 - t.depth, 1nat, 0nat,
{
    if t.depth != max {
        assert(calls_below_definitions(lines, t.name));
        lemma_callers_reads_back(lines, t.name, m1, m2);
        match (callers_of(lines, t.name, m1), callers_of(lines, t.name, m2)) {
            (Some((names, n1)), Some((_, n2))) => {
                if !(names.len() > 0 && t.depth + 1 > usize::MAX) {
                    lemma_grow_each_reads_back(
                        lines,
                        t.children + leaves(names, t.depth),
                        t.depth,
                        max,
                        n1,
                        n2,
                    );
                }
            },
            _ => {},
        }
    }
}

proof fn lemma_grow_each_reads_back(
    lines: Seq<Seq<char>>,
    ts: Seq<CallTree>,
    d: nat,
    max: nat,
    m1: CallerMemo,
    m2: CallerMemo,
)
    requires
        memo_reads_back(lines, m1),
        memo_reads_back(lines, m2),
        names_keep_trimmed(lines),
        all_calls_below_definitions(lines),
    ensures
        match (grow_each(lines, ts, d, max, m1), grow_each(lines, ts, d, max, m2)) {
            (Some((k1, n1)), Some((k2, n2))) => k1 == k2 && memo_reads_back(lines, n1)
                && memo_reads_back(lines, n2),
            (None, None) => true,
            _ => false,
        },
    decreases usize::MAX + 1 - d, 0nat, ts.len(),
{
    if ts.len() > 0 {
        lemma_grow_each_reads_back(lines, ts.drop_last(), d, max, m1, m2);
        match (
            grow_each(lines, ts.drop_last(), d, max, m1),
            grow_each(lines, ts.drop_last(), d, max, m2),
        ) {
            (Some((_, p1)), Some((_, p2))) => {
                if ts.last().depth == d + 1 && d + 1 <= usize::MAX {
                    lemma_grow_reads_back(lines, ts.last(), max, p1, p2);
                }
            },
            _ => {},
        }
    }
}

/// What the analyzer remembers only saves work: where every remembered
/// lookup reads back, every definition line names the same function with
/// or without its outer blanks, and every calling line lies below a
/// definition, it never changes the graph, and growing keeps it reading
/// back. In particular growing with any such memory gives the graph that a
/// fresh analyzer gives.
pub proof fn law_memo_transparent(lines: Seq<Seq<char>>, t: CallTree, max: nat, memo: CallerMemo)
    requires
        memo_reads_back(lines, memo),
        names_keep_trimmed(lines),
        all_calls_below_definitions(lines),
    ensures
        match (
            grow(lines, t, max, memo),
            grow(lines, t, max, CallerMemo { callers: Seq::empty(), unused: Seq::empty() }),
        ) {
            (Some((g1, n1)), Some((g2, _))) => g1 == g2 && memo_reads_back(lines, n1),
            (None, None) => true,
            _ => false,
        },
{
    lemma_grow_reads_back(
        lines,
        t,
        max,
        memo,
        CallerMemo { callers: Seq::empty(), unused: Seq::empty() },
    );
}

/// Line numbers as naturals.
pub open spec fn line_numbers(v: Seq<usize>) -> Seq<nat> {
    Seq::new(v.len(), |i: int| v[i] as nat)
}

/// The table of callers' lines, as the pairs it holds.
pub open spec fn caller_entries(v: Seq<(String, Vec<usize>)>) -> Seq<(Seq<char>, Seq<nat>)> {
    Seq::new(v.len(), |i: int| (v[i].0@, line_numbers(v[i].1@)))
}

/// The remembered lookups held by the two tables.
pub open spec fn memo_of(table: Seq<(String, Vec<usize>)>, unused: Seq<String>) -> CallerMemo {
    CallerMemo { callers: caller_entries(table), unused: names_of(unused) }
}

/// A copy of a list of line numbers.
fn copy_lines(v: &Vec<usize>) -> (r: Vec<usize>)
    ensures
        r@ == v@,
{
    let mut r: Vec<usize> = Vec::new();
    let mut i: usize = 0;
    while i < v.len()
        invariant
            0 <= i <= v@.len(),
            r@ == v@.take(i as int),
        decreases v.len() - i,
    {
        r.push(v[i]);
        i = i + 1;
        assert(r@ =~= v@.take(i as int));
    }
    assert(v@.take(v@.len() as int) =~= v@);
    r
}

/// A copy of the table of callers' lines.
fn copy_table(v: &Vec<(String, Vec<usize>)>) -> (r: Vec<(String, Vec<usize>)>)
    ensures
        caller_entries(r@) == caller_entries(v@),
{
    let mut r: Vec<(String, Vec<usize>)> = Vec::new();
    let mut i: usize = 0;
    while i < v.len()
        invariant
            0 <= i <= v@.len(),
            caller_entries(r@) == caller_entries(v@).take(i as int),
        decreases v.len() - i,
    {
        let ghost prev = r@;
        let name = v[i].0.clone();
        let ls = copy_lines(&v[i].1);
        assert(name@ == v@[i as int].0@);
        r.push((name, ls));
        assert(caller_entries(r@) =~= caller_entries(prev).push(caller_entries(v@)[i as int]));
        assert(caller_entries(v@).take(i + 1) =~= caller_entries(v@).take(i as int).push(
            caller_entries(v@)[i as int],
        ));
        i = i + 1;
    }
    assert(caller_entries(v@).take(v@.len() as int) =~= caller_entries(v@));
    r
}

proof fn lemma_find_lines_step(m: Seq<(Seq<char>, Seq<nat>)>, name: Seq<char>, i: int)
    requires
        0 <= i < m.len(),
        m[i].0 != name,
    ensures
        find_lines(m.subrange(i, m.len() as int), name) == find_lines(
            m.subrange(i + 1, m.len() as int),
            name,
        ),
{
    assert(m.subrange(i, m.len() as int).drop_first() =~= m.subrange(i + 1, m.len() as int));
}

/// The position in the table of the entry for `name`, if any.
fn lookup_lines(v: &Vec<(String, Vec<usize>)>, name: &String) -> (r: Option<usize>)
    ensures
        match r {
            Some(k) => k < v@.len() && find_lines(caller_entries(v@), name@) == Some(
                line_numbers(v@[k as int].1@),
            ),
            None => find_lines(caller_entries(v@), name@) is None,
        },
{
    let ghost m = caller_entries(v@);
    assert(m.subrange(0, m.len() as int) =~= m);
    let mut i: usize = 0;
    while i < v.len()
        invariant
            0 <= i <= v@.len() == m.len(),
            m == caller_entries(v@),
            find_lines(m, name@) == find_lines(m.subrange(i as int, m.len() as int), name@),
        decreases v.len() - i,
    {
        if v[i].0 == *name {
            return Some(i);
        }
        proof {
            lemma_find_lines_step(m, name@, i as int);
        }
        i = i + 1;
    }
    None
}

/// A call-graph analyzer for the functions that call one function.
pub struct Caller {
    fn_hash: Vec<(String, Vec<usize>)>,
    no_used_fn: Vec<String>,
    pub source: Vec<String>,
    pub root: FunctionNode,
    yaml_file_path: String,
}

impl Caller {
    /// What the analyzer remembers of earlier lookups.
    pub closed spec fn memo(&self) -> CallerMemo {
        memo_of(self.fn_hash@, self.no_used_fn@)
    }

    /// The path of the output file.
    pub closed spec fn output_path(&self) -> Seq<char> {
        self.yaml_file_path@
    }

    /// The source lines.
    pub closed spec fn lines(&self) -> Seq<Seq<char>> {
        lines_of(self.source@)
    }

    /// The call graph built so far.
    pub closed spec fn graph(&self) -> CallTree {
        self.root.tree()
    }

    /// What `generate_call_graph(depth)` yields: the grown graph and what is
    /// remembered, or `None` where the analysis cannot run to its end.
    pub open spec fn outcome(&self, depth: nat) -> Option<(CallTree, CallerMemo)> {
        if regex_compiles(word_call()) {
            grow(self.lines(), self.graph(), depth, self.memo())
        } else {
            None
        }
    }

    /// An analyzer for the callers of `root_fn_name`, writing to
    /// `output_file_name`, with no source lines yet.
    pub fn new(root_fn_name: String, output_file_name: String) -> (c: Caller)
        ensures
            c.graph() == leaf(root_fn_name@, 0),
            c.lines().len() == 0,
            c.memo() == (CallerMemo { callers: Seq::empty(), unused: Seq::empty() }),
            memo_well_formed(c.memo()),
            c.output_path() == output_file_name@,
    {
        let c = Caller {
            fn_hash: Vec::new(),
            no_used_fn: Vec::new(),
            source: Vec::new(),
            root: FunctionNode::new(root_fn_name, 0),
            yaml_file_path: output_file_name,
        };
        assert(c.memo().callers =~= Seq::<(Seq<char>, Seq<nat>)>::empty());
        assert(c.memo().unused =~= Seq::<Seq<char>>::empty());
        c
    }

    /// Whether the call graph's text can be written: every node's
    /// indentation fits in `usize`.
    pub fn can_output(&self) -> (r: bool)
        ensures
            r == indent_fits(self.graph(), 0),
    {
        self.root.fits_indentation(0)
    }

    /// Replaces the source lines; the graph and what is remembered stay.
    pub fn set_source(&mut self, source: Vec<String>)
        ensures
            final(self).lines() == lines_of(source@),
            final(self).graph() == old(self).graph(),
            final(self).memo() == old(self).memo(),
            final(self).output_path() == old(self).output_path(),
    {
        self.source = source;
    }

    /// The root of the call graph.
    pub fn root_node(&self) -> (r: &FunctionNode)
        ensures
            r.tree() == self.graph(),
    {
        &self.root
    }

    /// The path of the output file.
    pub fn yaml_file_path(&self) -> (r: String)
        ensures
            r@ == self.output_path(),
    {
        self.yaml_file_path.clone()
    }

    /// What looking `name` up yields: its callers and what is remembered
    /// afterwards, or `None` where the lookup cannot run to its end.
    pub open spec fn lookup(&self, name: Seq<char>) -> Option<(Seq<Seq<char>>, CallerMemo)> {
        if regex_compiles(word_call()) {
            callers_of(self.lines(), name, self.memo())
        } else {
            None
        }
    }

    /// The names of the functions that call `name`, one per calling line, in
    /// the order of the lines, remembering what was found; where the lookup
    /// cannot run to its end, `None`, and nothing changes. Where what was
    /// remembered read back and every line calling `name` lies below a
    /// definition, what is remembered afterwards reads back too.
    pub fn lookup_callers(&mut self, name: &String) -> (r: Option<Vec<String>>)
        ensures
            match old(self).lookup(name@) {
                Some((cs, m)) => r matches Some(v) && names_of(v@) == cs && final(self).memo()
                    == m,
                None => r is None && final(self).memo() == old(self).memo(),
            },
            r is Some && memo_reads_back(old(self).lines(), old(self).memo())
                && calls_below_definitions(old(self).lines(), name@) ==> memo_reads_back(
                final(self).lines(),
                final(self).memo(),
            ),
            final(self).lines() == old(self).lines(),
            final(self).graph() == old(self).graph(),
            final(self).output_path() == old(self).output_path(),
    {
        let word = match Pattern::new(r"(\w+)\s*\(") {
            Ok(p) => p,
            Err(_) => {
                return None;
            },
        };
        let mut table = copy_table(&self.fn_hash);
        let mut unused = clone_names(&self.no_used_fn);
        let r = self.add_caller_fn(name, &mut table, &mut unused, &word);
        if r.is_some() {
            self.fn_hash = table;
            self.no_used_fn = unused;
        }
        r
    }

    /// Grows the call graph down to level `depth` where the analysis can run
    /// to its end (and says so); elsewhere changes nothing and answers false.
    pub fn try_generate_call_graph(&mut self, depth: usize) -> (r: bool)
        ensures
            r == old(self).outcome(depth as nat) is Some,
            old(self).outcome(depth as nat) matches Some((t, m)) ==> final(self).graph() == t
                && final(self).memo() == m,
            !r ==> final(self).graph() == old(self).graph() && final(self).memo() == old(
                self,
            ).memo(),
            memo_well_formed(old(self).memo()) ==> memo_well_formed(final(self).memo()),
            r && memo_reads_back(old(self).lines(), old(self).memo())
                && all_calls_below_definitions(old(self).lines()) ==> memo_reads_back(
                final(self).lines(),
                final(self).memo(),
            ),
            final(self).lines() == old(self).lines(),
            final(self).output_path() == old(self).output_path(),
    {
        proof {
            if memo_well_formed(self.memo()) {
                lemma_grow_well_formed(self.lines(), self.graph(), depth as nat, self.memo());
            }
        }
        let word = match Pattern::new(r"(\w+)\s*\(") {
            Ok(p) => p,
            Err(_) => {
                return false;
            },
        };
        let mut table = copy_table(&self.fn_hash);
        let mut unused = clone_names(&self.no_used_fn);
        match self.search_c_fn(depth, &self.root, &mut table, &mut unused, &word) {
            Some(g) => {
                self.root = g;
                self.fn_hash = table;
                self.no_used_fn = unused;
                true
            },
            None => false,
        }
    }

    /// Grows the call graph down to level `depth`.
    pub fn generate_call_graph(&mut self, depth: usize)
        requires
            old(self).outcome(depth as nat) is Some,
        ensures
            old(self).outcome(depth as nat) matches Some((t, m)) ==> final(self).graph() == t
                && final(self).memo() == m,
            memo_well_formed(old(self).memo()) ==> memo_well_formed(final(self).memo()),
            memo_reads_back(old(self).lines(), old(self).memo()) && all_calls_below_definitions(
                old(self).lines(),
            ) ==> memo_reads_back(final(self).lines(), final(self).memo()),
            final(self).lines() == old(self).lines(),
            final(self).output_path() == old(self).output_path(),
    {
        self.try_generate_call_graph(depth);
    }

    /// The text of the call graph, as the output file holds it.
    pub fn output_yaml(&self) -> (r: String)
        requires
            indent_fits(self.graph(), 0),
        ensures
            r@ == render(self.graph(), 0),
    {
        let mut out: Vec<char> = Vec::new();
        write_node_yaml(&self.root, 0, &mut out);
        string_of(out.as_slice())
    }

    /// Whether line `index` starts a definition.
    fn is_function_definition(&self, index: usize) -> (r: bool)
        ensures
            r == is_definition(self.lines(), index as int),
    {
        let n = self.source.len();
        if index >= n || n - index < 2 {
            return false;
        }
        let current = trimmed_line(&self.source, index);
        let next = trimmed_line(&self.source, index + 1);
        let open = ['{'];
        assert(open@ =~= seq!['{']);
        if !has_char(current.as_slice(), '(') {
            return false;
        }
        if has_char(current.as_slice(), ')') && is_exactly(next.as_slice(), &open) {
            return true;
        }
        if n - index < 3 {
            return false;
        }
        let next_next = trimmed_line(&self.source, index + 2);
        has_char(next.as_slice(), ')') && is_exactly(next_next.as_slice(), &open)
    }

    /// The name a definition line gives; `None` where it gives none.
    fn extract_fn_name(&self, line: &str, word: &Pattern) -> (r: Option<String>)
        requires
            word.source() == word_call(),
        ensures
            match r {
                Some(s) => defined_name(line@) == Some(s@),
                None => defined_name(line@) is None,
            },
            defined_name(trimmed(line@)) == defined_name(line@),
    {
        match word.capture_group(line, 1) {
            Some(Some(s)) => Some(s),
            _ => None,
        }
    }

    /// The name the definition at line `index` gives (the line taken
    /// without outer blanks).
    fn fn_name_of_designated_line(&self, index: usize, word: &Pattern) -> (r: Option<String>)
        requires
            index < self.lines().len(),
            word.source() == word_call(),
        ensures
            match r {
                Some(s) => defined_name(trimmed(self.lines()[index as int])) == Some(s@),
                None => defined_name(trimmed(self.lines()[index as int])) is None,
            },
    {
        let t = trimmed_line(&self.source, index);
        let text = string_of(t.as_slice());
        self.extract_fn_name(text.as_str(), word)
    }

    /// The names defined at the recorded lines `ls`.
    fn names_of_lines(&self, ls: &Vec<usize>, word: &Pattern) -> (r: Option<Vec<String>>)
        requires
            word.source() == word_call(),
        ensures
            match r {
                Some(v) => names_at(self.lines(), line_numbers(ls@)) == Some(names_of(v@)),
                None => names_at(self.lines(), line_numbers(ls@)) is None,
            },
    {
        let ghost lines = self.lines();
        let mut names: Vec<String> = Vec::new();
        let mut i: usize = 0;
        assert(line_numbers(ls@).take(0) =~= Seq::<nat>::empty());
        assert(names_of(names@) =~= Seq::<Seq<char>>::empty());
        while i < ls.len()
            invariant
                0 <= i <= ls@.len(),
                lines == self.lines(),
                word.source() == word_call(),
                names_at(lines, line_numbers(ls@).take(i as int)) == Some(names_of(names@)),
            decreases ls.len() - i,
        {
            let ghost pre = line_numbers(ls@).take(i as int);
            assert(line_numbers(ls@).take(i + 1).drop_last() =~= pre);
            assert(line_numbers(ls@).take(i + 1).last() == ls@[i as int] as nat);
            if ls[i] >= self.source.len() {
                proof {
                    lemma_names_at_prefix_fails(lines, line_numbers(ls@), i + 1);
                }
                return None;
            }
            match self.fn_name_of_designated_line(ls[i], word) {
                Some(s) => {
                    let ghost prev = names_of(names@);
                    names.push(s);
                    assert(names_of(names@) =~= prev.push(s@));
                },
                None => {
                    proof {
                        lemma_names_at_prefix_fails(lines, line_numbers(ls@), i + 1);
                    }
                    return None;
                },
            }
            i = i + 1;
        }
        assert(line_numbers(ls@).take(ls@.len() as int) =~= line_numbers(ls@));
        Some(names)
    }

    /// The callers of the function whose name followed by `(` is `paren`,
    /// found by reading all lines, where `names[k]` is the name line `k`
    /// gives should it start a definition (a line past the end of `names`
    /// gives none): their names and definition lines, in the order of the
    /// calling lines; `None` where a definition line gives no name.
    pub fn scan_with_names(&self, paren: &Vec<char>, names: &Vec<Option<String>>) -> (r: Option<
        (Vec<String>, Vec<usize>),
    >)
        ensures
            match r {
                Some((ns, ls)) => scan_given(
                    self.lines(),
                    paren@,
                    0,
                    Seq::empty(),
                    0,
                    given_names(names@),
                ) == Some((names_of(ns@), line_numbers(ls@))),
                None => scan_given(self.lines(), paren@, 0, Seq::empty(), 0, given_names(names@))
                    is None,
            },
    {
        let ghost given = given_names(names@);
        let ghost lines = self.lines();
        let n = self.source.len();
        let mut curr_fn: String = string_of(&[]);
        let mut curr_fn_line: usize = 0;
        let mut callers: Vec<String> = Vec::new();
        let mut found: Vec<usize> = Vec::new();
        let mut i: usize = 0;
        assert(curr_fn@ =~= Seq::<char>::empty());
        assert(names_of(callers@) =~= Seq::<Seq<char>>::empty());
        assert(line_numbers(found@) =~= Seq::<nat>::empty());
        while i < n
            invariant
                0 <= i <= n == lines.len(),
                lines == self.lines(),
                given == given_names(names@),
                scan_given(lines, paren@, 0, Seq::empty(), 0, given) == match scan_given(
                    lines,
                    paren@,
                    i as nat,
                    curr_fn@,
                    curr_fn_line as nat,
                    given,
                ) {
                    Some((ns, ls)) => Some(
                        (names_of(callers@) + ns, line_numbers(found@) + ls),
                    ),
                    None => None,
                },
            decreases n - i,
        {
            if self.is_function_definition(i) {
                if i >= names.len() {
                    return None;
                }
                match &names[i] {
                    Some(f) => {
                        curr_fn = f.clone();
                        curr_fn_line = i;
                    },
                    None => {
                        return None;
                    },
                }
            } else {
                let line = chars_of(self.source[i].as_str());
                if has_infix(line.as_slice(), paren.as_slice()) {
                    let ghost pn = names_of(callers@);
                    let ghost pl = line_numbers(found@);
                    callers.push(curr_fn.clone());
                    found.push(curr_fn_line);
                    assert(names_of(callers@) =~= pn.push(curr_fn@));
                    assert(line_numbers(found@) =~= pl.push(curr_fn_line as nat));
                    proof {
                        match scan_given(
                            lines,
                            paren@,
                            i as nat + 1,
                            curr_fn@,
                            curr_fn_line as nat,
                            given,
                        ) {
                            Some((ns, ls)) => {
                                assert(pn + (seq![curr_fn@] + ns) =~= names_of(callers@) + ns);
                                assert(pl + (seq![curr_fn_line as nat] + ls) =~= line_numbers(
                                    found@,
                                ) + ls);
                            },
                            None => {},
                        }
                    }
                }
            }
            i = i + 1;
        }
        assert(names_of(callers@) + Seq::<Seq<char>>::empty() =~= names_of(callers@));
        assert(line_numbers(found@) + Seq::<nat>::empty() =~= line_numbers(found@));
        Some((callers, found))
    }

    /// The callers of the function whose name followed by `(` is `paren`,
    /// found by reading all lines: their names and definition lines.
    fn scan_source(&self, paren: &Vec<char>, word: &Pattern) -> (r: Option<
        (Vec<String>, Vec<usize>),
    >)
        requires
            word.source() == word_call(),
        ensures
            match r {
                Some((ns, ls)) => scan_calls(self.lines(), paren@, 0, Seq::empty(), 0) == Some(
                    (names_of(ns@), line_numbers(ls@)),
                ),
                None => scan_calls(self.lines(), paren@, 0, Seq::empty(), 0) is None,
            },
            names_keep_trimmed(self.lines()),
    {
        let ghost lines = self.lines();
        let n = self.source.len();
        let mut names: Vec<Option<String>> = Vec::new();
        let mut i: usize = 0;
        while i < n
            invariant
                0 <= i <= n == lines.len(),
                lines == self.lines(),
                word.source() == word_call(),
                names@.len() == i,
                forall|k: int|
                    #![trigger is_definition(lines, k)]
                    0 <= k < i && is_definition(lines, k) ==> name_at(given_names(names@), k)
                        == defined_name(lines[k]) && defined_name(trimmed(lines[k]))
                        == defined_name(lines[k]),
            decreases n - i,
        {
            assert(lines[i as int] == self.source@[i as int]@);
            let ghost before = names@;
            if self.is_function_definition(i) {
                names.push(self.extract_fn_name(self.source[i].as_str(), word));
            } else {
                names.push(None);
            }
            assert forall|k: int| 0 <= k < i implies given_names(names@)[k] == given_names(before)[k] by {
                assert(names@[k] == before[k]);
            }
            i = i + 1;
        }
        proof {
            lemma_scan_given_agree(
                lines,
                paren@,
                0,
                Seq::empty(),
                0,
                given_names(names@),
                defined_names(lines),
            );
        }
        self.scan_with_names(paren, &names)
    }

    /// The functions that call `fn_name`, remembering what was found.
    fn add_caller_fn(
        &self,
        fn_name: &String,
        table: &mut Vec<(String, Vec<usize>)>,
        unused: &mut Vec<String>,
        word: &Pattern,
    ) -> (r: Option<Vec<String>>)
        requires
            word.source() == word_call(),
        ensures
            match callers_of(self.lines(), fn_name@, memo_of(old(table)@, old(unused)@)) {
                Some((cs, m)) => r matches Some(v) && names_of(v@) == cs && memo_of(
                    final(table)@,
                    final(unused)@,
                ) == m,
                None => r is None,
            },
            r is Some && memo_reads_back(self.lines(), memo_of(old(table)@, old(unused)@))
                && calls_below_definitions(self.lines(), fn_name@) ==> memo_reads_back(
                self.lines(),
                memo_of(final(table)@, final(unused)@),
            ),
    {
        if holds_name(unused, fn_name) {
            assert(names_of(Seq::<String>::empty()) =~= Seq::<Seq<char>>::empty());
            return Some(Vec::new());
        }
        match lookup_lines(table, fn_name) {
            Some(k) => self.names_of_lines(&table[k].1, word),
            None => {
                let mut paren = chars_of(fn_name.as_str());
                paren.push('(');
                match self.scan_source(&paren, word) {
                    None => None,
                    Some((names, found)) => {
                        proof {
                            if memo_reads_back(self.lines(), memo_of(table@, unused@))
                                && calls_below_definitions(self.lines(), fn_name@) {
                                law_repeated_lookup(
                                    self.lines(),
                                    fn_name@,
                                    memo_of(table@, unused@),
                                );
                            }
                        }
                        if names.len() == 0 {
                            let ghost before = names_of(unused@);
                            unused.push(fn_name.clone());
                            assert(names_of(unused@) =~= before.push(fn_name@));
                        } else {
                            let ghost before = caller_entries(table@);
                            table.push((fn_name.clone(), found));
                            assert(caller_entries(table@) =~= before.push(
                                (fn_name@, line_numbers(found@)),
                            ));
                        }
                        Some(names)
                    },
                }
            },
        }
    }

    /// The graph below `node` grown down to level `depth`.
    fn search_c_fn(
        &self,
        depth: usize,
        node: &FunctionNode,
        table: &mut Vec<(String, Vec<usize>)>,
        unused: &mut Vec<String>,
        word: &Pattern,
    ) -> (r: Option<FunctionNode>)
        requires
            word.source() == word_call(),
        ensures
            match grow(self.lines(), node.tree(), depth as nat, memo_of(old(table)@, old(unused)@)) {
                Some((t, m)) => r matches Some(g) && g.tree() == t && memo_of(
                    final(table)@,
                    final(unused)@,
                ) == m,
                None => r is None,
            },
            r is Some && memo_reads_back(self.lines(), memo_of(old(table)@, old(unused)@))
                && all_calls_below_definitions(self.lines()) ==> memo_reads_back(
                self.lines(),
                memo_of(final(table)@, final(unused)@),
            ),
        decreases usize::MAX - node.tree().depth,
    {
        let d = node.curr_depth();
        if d == depth {
            return Some(node.duplicate());
        }
        let ghost t = node.tree();
        let ghost lines = self.lines();
        let ghost m0 = memo_of(table@, unused@);
        let name = node.name();
        proof {
            if all_calls_below_definitions(lines) {
                assert(calls_below_definitions(lines, name@));
            }
        }
        let names = match self.add_caller_fn(&name, table, unused, word) {
            Some(v) => v,
            None => {
                return None;
            },
        };
        if names.len() > 0 && d == usize::MAX {
            return None;
        }
        let ghost kids = t.children + leaves(names_of(names@), t.depth);
        let ghost m1 = memo_of(table@, unused@);
        let old_count = node.num_children();
        let mut grown: Vec<FunctionNode> = Vec::new();
        assert(kids.take(0) =~= Seq::<CallTree>::empty());
        assert(trees_of(grown@) =~= Seq::<CallTree>::empty());
        while grown.len() < old_count || grown.len() - old_count < names.len()
            invariant
                t == node.tree(),
                lines == self.lines(),
                d == t.depth,
                d != depth,
                !(names@.len() > 0 && t.depth + 1 > usize::MAX),
                word.source() == word_call(),
                callers_of(lines, t.name, m0) == Some((names_of(names@), m1)),
                m0 == memo_of(old(table)@, old(unused)@),
                old_count == t.children.len(),
                kids == t.children + leaves(names_of(names@), t.depth),
                grown@.len() <= kids.len(),
                forall|j: int| 0 <= j < grown@.len() ==> #[trigger] grown@[j].tree().depth == d + 1,
                grow_each(lines, kids.take(grown@.len() as int), d as nat, depth as nat, m1)
                    == Some((trees_of(grown@), memo_of(table@, unused@))),
                memo_reads_back(lines, m0) && all_calls_below_definitions(lines)
                    ==> memo_reads_back(lines, memo_of(table@, unused@)),
            decreases kids.len() - grown@.len(),
        {
            let i = grown.len();
            let next = if i < old_count {
                node.child_depth_step(i);
                node.child(i).duplicate()
            } else {
                FunctionNode::new(names[i - old_count].clone(), d + 1)
            };
            let next_depth = next.curr_depth();
            assert(next_depth == d + 1);
            assert(next.tree() == kids[i as int]);
            assert(kids.take(i + 1).drop_last() =~= kids.take(i as int));
            assert(kids.take(i + 1).last() == kids[i as int]);
            match self.search_c_fn(depth, &next, table, unused, word) {
                Some(g) => {
                    let ghost prev = grown@;
                    grown.push(g);
                    assert(trees_of(grown@) =~= trees_of(prev).push(g.tree()));
                },
                None => {
                    proof {
                        lemma_grow_each_prefix_fails(lines, kids, d as nat, depth as nat, m1, i + 1);
                    }
                    return None;
                },
            }
        }
        assert(kids.take(kids.len() as int) =~= kids);
        let g = FunctionNode::with_calls(name, d, grown);
        Some(g)
    }
}

/// Reading recorded lines fails when reading one of their prefixes fails.
proof fn lemma_names_at_prefix_fails(lines: Seq<Seq<char>>, ls: Seq<nat>, k: int)
    requires
        0 <= k <= ls.len(),
        names_at(lines, ls.take(k)) is None,
    ensures
        names_at(lines, ls) is None,
    decreases ls.len() - k,
{
    if k < ls.len() {
        assert(ls.take(k + 1).drop_last() =~= ls.take(k));
        lemma_names_at_prefix_fails(lines, ls, k + 1);
    } else {
        assert(ls.take(k) =~= ls);
    }
}

} // verus!
