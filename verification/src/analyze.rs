//! The first call-graph analyzer: a callee graph built from statement lines.
//!
//! A function is defined where a line mentions `name(` and `)` and the next
//! line is exactly `{`. Its body runs from the line after that `{` to the
//! line where the count of lines that are exactly `{` and exactly `}`
//! balances. A body line is a call when it is a statement (it ends with `;`)
//! holding parentheses and no operator; the callee is the last word before
//! the first `(`.
//!
//! A result of `None` in the models below marks an input on which the
//! analysis cannot run to its end: a body that runs past the last line, a
//! recorded definition line that no longer has a line after it, a brace
//! count beyond `usize`, or a level beyond `usize` (below the depth limit
//! the search goes on until the calls run out).
use vstd::prelude::*;
use crate::graph::{
    CallTree, FunctionNode, leaves, with_children, render, trees_of, write_node_yaml, indent_fits, within_depth,
    same_heads,
};
use crate::source::{
    lines_of, trimmed_line, entries_of, find_entry, lookup, clone_entries, names_of, distinct_keys,
    lemma_find_entry_absent, lemma_push_distinct,
};
use crate::text::{
    trimmed, contains, starts_with, ends_with, prefix_before, last_word, chars_of, string_of,
    has_infix, has_char, has_prefix, has_suffix, is_exactly, take_until, find_last_word,
};

verus! {

/// Line `index` opens the definition of `name`: it mentions `name(` and
/// `)`, and the next line is exactly `{` (both taken without outer blanks).
pub open spec fn opens_definition(lines: Seq<Seq<char>>, index: int, name: Seq<char>) -> bool {
    &&& 0 <= index
    &&& index + 1 < lines.len()
    &&& contains(trimmed(lines[index]), name.push('('))
    &&& contains(trimmed(lines[index]), seq![')'])
    &&& trimmed(lines[index + 1]) == seq!['{']
}

/// The first line at or after `from` that opens the definition of `name`.
pub open spec fn first_definition(lines: Seq<Seq<char>>, name: Seq<char>, from: nat) -> Option<nat>
    decreases lines.len() - from,
{
    if from >= lines.len() {
        None
    } else if opens_definition(lines, from as int, name) {
        Some(from)
    } else {
        first_definition(lines, name, from + 1)
    }
}

/// A (trimmed) line is a call statement: it is no comment, ends with `;`,
/// holds `(` and `)`, and holds none of `=`, `+`, `-`, `*`, `/`, `&&`, `||`.
pub open spec fn is_call_statement(t: Seq<char>) -> bool {
    &&& !starts_with(t, seq!['/', '/'])
    &&& !(starts_with(t, seq!['/', '*']) && ends_with(t, seq!['*', '/']))
    &&& ends_with(t, seq![';'])
    &&& contains(t, seq!['('])
    &&& contains(t, seq![')'])
    &&& !contains(t, seq!['='])
    &&& !contains(t, seq!['+'])
    &&& !contains(t, seq!['-'])
    &&& !contains(t, seq!['*'])
    &&& !contains(t, seq!['/'])
    &&& !contains(t, seq!['&', '&'])
    &&& !contains(t, seq!['|', '|'])
}

/// The function a (trimmed) line calls: the last word before its first `(`.
pub open spec fn called_name(t: Seq<char>) -> Option<Seq<char>> {
    if is_call_statement(t) {
        last_word(prefix_before(t, '('))
    } else {
        None
    }
}

/// The calls found from line `k` on, with `count` braces open, until the
/// count drops to zero.
pub open spec fn body_calls(lines: Seq<Seq<char>>, k: int, count: nat) -> Option<Seq<Seq<char>>>
    decreases lines.len() - k,
{
    if count == 0 {
        Some(Seq::empty())
    } else if k < 0 || k >= lines.len() {
        None
    } else {
        let t = trimmed(lines[k]);
        let closed: nat = if t == seq!['}'] {
            (count - 1) as nat
        } else {
            count
        };
        let opened: nat = if t == seq!['{'] {
            closed + 1
        } else {
            closed
        };
        if opened > usize::MAX {
            None
        } else {
            match body_calls(lines, k + 1, opened) {
                None => None,
                Some(rest) => Some(
                    match called_name(t) {
                        Some(n) => seq![n],
                        None => Seq::empty(),
                    } + rest,
                ),
            }
        }
    }
}

/// The calls in the body of the definition that starts at line `line`.
pub open spec fn calls_at(lines: Seq<Seq<char>>, line: nat) -> Option<Seq<Seq<char>>> {
    if line + 1 >= lines.len() {
        None
    } else if trimmed(lines[line + 1 as int]) == seq!['{'] {
        body_calls(lines, line + 2 as int, 1)
    } else {
        Some(Seq::empty())
    }
}

/// The functions `name` calls, and the table of definition lines after
/// looking them up (a name found for the first time is recorded).
pub open spec fn callees_of(
    lines: Seq<Seq<char>>,
    name: Seq<char>,
    memo: Seq<(Seq<char>, nat)>,
) -> Option<(Seq<Seq<char>>, Seq<(Seq<char>, nat)>)> {
    match find_entry(memo, name) {
        Some(line) => match calls_at(lines, line) {
            Some(cs) => Some((cs, memo)),
            None => None,
        },
        None => match first_definition(lines, name, 0) {
            None => Some((Seq::empty(), memo)),
            Some(line) => match calls_at(lines, line) {
                Some(cs) => Some((cs, memo.push((name, line)))),
                None => None,
            },
        },
    }
}

/// The graph below `t` grown for the limit `max`: a node not at level `max` gets
/// its callees appended as children, and then each child, old and new, is
/// grown in turn. Below `max` the growth stops where the calls run out, or
/// fails where a level would pass `usize::MAX`.
pub open spec fn grow(lines: Seq<Seq<char>>, t: CallTree, max: nat, memo: Seq<(Seq<char>, nat)>) -> Option<
    (CallTree, Seq<(Seq<char>, nat)>),
>
    decreases usize::MAX + 1 - t.depth, 1nat, 0nat,
{
    if t.depth == max {
        Some((t, memo))
    } else {
        match callees_of(lines, t.name, memo) {
            None => None,
            Some((names, m1)) => if names.len() > 0 && t.depth + 1 > usize::MAX {
                None
            } else { match grow_each(
                lines,
                t.children + leaves(names, t.depth),
                t.depth,
                max,
                m1,
            ) {
                None => None,
                Some((kids, m2)) => Some((with_children(t, kids), m2)),
            } },
        }
    }
}

/// The nodes `ts` (children of a node at level `d`) grown from left to right.
pub open spec fn grow_each(
    lines: Seq<Seq<char>>,
    ts: Seq<CallTree>,
    d: nat,
    max: nat,
    memo: Seq<(Seq<char>, nat)>,
) -> Option<(Seq<CallTree>, Seq<(Seq<char>, nat)>)>
    decreases usize::MAX + 1 - d, 0nat, ts.len(),
{
    if ts.len() == 0 {
        Some((Seq::empty(), memo))
    } else {
        match grow_each(lines, ts.drop_last(), d, max, memo) {
            None => None,
            Some((ks, m)) => if ts.last().depth == d + 1 && d + 1 <= usize::MAX {
                match grow(lines, ts.last(), max, m) {
                    None => None,
                    Some((k, m2)) => Some((ks.push(k), m2)),
                }
            } else {
                None
            },
        }
    }
}

/// Growing a list fails when growing one of its prefixes fails.
proof fn lemma_grow_each_prefix_fails(
    lines: Seq<Seq<char>>,
    ts: Seq<CallTree>,
    d: nat,
    max: nat,
    memo: Seq<(Seq<char>, nat)>,
    k: int,
)
    requires
        0 <= k <= ts.len(),
        grow_each(lines, ts.take(k), d, max, memo) is None,
    ensures
        grow_each(lines, ts, d, max, memo) is None,
    decreases ts.len() - k,
{
    if k < ts.len() {
        assert(ts.take(k + 1).drop_last() =~= ts.take(k));
        lemma_grow_each_prefix_fails(lines, ts, d, max, memo, k + 1);
    } else {
        assert(ts.take(k) =~= ts);
    }
}

/// Growing keeps the names and levels of the nodes grown, in order.
proof fn lemma_grow_each_heads(
    lines: Seq<Seq<char>>,
    ts: Seq<CallTree>,
    d: nat,
    max: nat,
    memo: Seq<(Seq<char>, nat)>,
)
    ensures
        grow_each(lines, ts, d, max, memo) matches Some((ks, _)) ==> same_heads(ks, ts),
    decreases ts.len(),
{
    if ts.len() > 0 {
        lemma_grow_each_heads(lines, ts.drop_last(), d, max, memo);
        match grow_each(lines, ts.drop_last(), d, max, memo) {
            Some((ks0, m)) => {
                match grow(lines, ts.last(), max, m) {
                    Some((k, _)) => {
                        assert(k.name == ts.last().name && k.depth == ts.last().depth);
                        let ks = ks0.push(k);
                        assert forall|i: int| 0 <= i < ks.len() implies (#[trigger] ks[i]).name
                            == ts[i].name && ks[i].depth == ts[i].depth by {
                            if i < ks0.len() {
                                assert(ts[i] == ts.drop_last()[i]);
                            }
                        }
                    },
                    None => {},
                }
            },
            None => {},
        }
    }
}

/// The definition lines: line `index` opens the definition of `name`
/// exactly when it holds `name(` and `)` and the next line is exactly `{`
/// (both taken without outer blanks), whatever else it holds.
pub proof fn law_definition_line(lines: Seq<Seq<char>>, index: int, name: Seq<char>)
    ensures
        opens_definition(lines, index, name) <==> {
            &&& 0 <= index
            &&& index + 1 < lines.len()
            &&& contains(trimmed(lines[index]), name.push('('))
            &&& contains(trimmed(lines[index]), seq![')'])
            &&& trimmed(lines[index + 1]) == seq!['{']
        },
{
}

proof fn lemma_first_definition_from(lines: Seq<Seq<char>>, name: Seq<char>, from: nat, k: nat)
    ensures
        first_definition(lines, name, from) == Some(k) <==> {
            &&& from <= k < lines.len()
            &&& opens_definition(lines, k as int, name)
            &&& forall|j: int| from <= j < k ==> !opens_definition(lines, j, name)
        },
    decreases lines.len() - from,
{
    if from < lines.len() {
        if opens_definition(lines, from as int, name) {
            if k > from {
                assert(from <= from < k);
            }
        } else {
            lemma_first_definition_from(lines, name, from + 1, k);
            if k > from {
                if forall|j: int| from + 1 <= j < k ==> !opens_definition(lines, j, name) {
                    assert forall|j: int| from <= j < k implies !opens_definition(lines, j, name) by {
                        if j != from {
                            assert(from + 1 <= j < k);
                        }
                    }
                }
            }
        }
    }
}

/// The definition a lookup uses is the first one: `first_definition` is line
/// `k` exactly when line `k` opens the definition of `name` and no earlier
/// line does.
pub proof fn law_first_definition(lines: Seq<Seq<char>>, name: Seq<char>, k: nat)
    ensures
        first_definition(lines, name, 0) == Some(k) <==> {
            &&& k < lines.len()
            &&& opens_definition(lines, k as int, name)
            &&& forall|j: int| 0 <= j < k ==> !opens_definition(lines, j, name)
        },
{
    lemma_first_definition_from(lines, name, 0, k);
}

/// The call statements: a (trimmed) line is one exactly when it starts with
/// no `//`, is no `/* ... */` comment, ends with `;`, holds `(` and `)`, and
/// holds none of `=`, `+`, `-`, `*`, `/`, `&&`, `||`; any other character
/// (a `,` between arguments, a blank, a `.`) leaves it one. The function it
/// calls is the last word before its first `(`.
pub proof fn law_call_statement(t: Seq<char>)
    ensures
        is_call_statement(t) <==> {
            &&& !starts_with(t, seq!['/', '/'])
            &&& !(starts_with(t, seq!['/', '*']) && ends_with(t, seq!['*', '/']))
            &&& ends_with(t, seq![';'])
            &&& contains(t, seq!['('])
            &&& contains(t, seq![')'])
            &&& !contains(t, seq!['='])
            &&& !contains(t, seq!['+'])
            &&& !contains(t, seq!['-'])
            &&& !contains(t, seq!['*'])
            &&& !contains(t, seq!['/'])
            &&& !contains(t, seq!['&', '&'])
            &&& !contains(t, seq!['|', '|'])
        },
        is_call_statement(t) ==> called_name(t) == last_word(prefix_before(t, '(')),
        !is_call_statement(t) ==> called_name(t) is None,
{
}

/// A body of one statement: where the line after a definition's first line
/// is `{`, the next one is a call statement (no comment, ending with `;`,
/// holding `(` and `)` and none of `=`, `+`, `-`, `*`, `/`, `&&`, `||`) and
/// the one after it is `}`,
/// the definition calls exactly the function that statement names.
pub proof fn law_one_statement_body(lines: Seq<Seq<char>>, d: nat, callee: Seq<char>)
    requires
        d + 3 < lines.len(),
        trimmed(lines[d + 1 as int]) == seq!['{'],
        trimmed(lines[d + 3 as int]) == seq!['}'],
        !starts_with(trimmed(lines[d + 2 as int]), seq!['/', '/']),
        !starts_with(trimmed(lines[d + 2 as int]), seq!['/', '*']),
        ends_with(trimmed(lines[d + 2 as int]), seq![';']),
        contains(trimmed(lines[d + 2 as int]), seq!['(']),
        contains(trimmed(lines[d + 2 as int]), seq![')']),
        !contains(trimmed(lines[d + 2 as int]), seq!['=']),
        !contains(trimmed(lines[d + 2 as int]), seq!['+']),
        !contains(trimmed(lines[d + 2 as int]), seq!['-']),
        !contains(trimmed(lines[d + 2 as int]), seq!['*']),
        !contains(trimmed(lines[d + 2 as int]), seq!['/']),
        !contains(trimmed(lines[d + 2 as int]), seq!['&', '&']),
        !contains(trimmed(lines[d + 2 as int]), seq!['|', '|']),
        last_word(prefix_before(trimmed(lines[d + 2 as int]), '(')) == Some(callee),
    ensures
        calls_at(lines, d) == Some(seq![callee]),
{
    let t = trimmed(lines[d + 2 as int]);
    let close = seq!['}'];
    assert(!ends_with(close, seq![';'])) by {
        assert(close.subrange(0, 1)[0] == '}');
    }
    assert(t != seq!['}'] && t != seq!['{']) by {
        if t == seq!['}'] || t == seq!['{'] {
            assert(t.subrange(t.len() - 1, t.len() as int)[0] == t[0]);
        }
    }
    assert(body_calls(lines, d + 4 as int, 0) == Some(Seq::<Seq<char>>::empty()));
    assert(body_calls(lines, d + 3 as int, 1) == Some(Seq::<Seq<char>>::empty()));
    assert(body_calls(lines, d + 2 as int, 1) == Some(seq![callee] + Seq::<Seq<char>>::empty()));
    assert(seq![callee] + Seq::<Seq<char>>::empty() =~= seq![callee]);
}

/// The children of a grown node: a node at the depth limit is left as it
/// is; any other keeps its children, in order, and gets one more child
/// per function its body calls, in the order of the calls, one level below
/// it, each named after the called function.
pub proof fn law_grown_children(
    lines: Seq<Seq<char>>,
    t: CallTree,
    max: nat,
    memo: Seq<(Seq<char>, nat)>,
)
    ensures
        t.depth == max ==> grow(lines, t, max, memo) == Some((t, memo)),
        t.depth != max ==> (grow(lines, t, max, memo) matches Some((g, _)) ==> {
            &&& callees_of(lines, t.name, memo) matches Some((names, _))
            &&& g.name == t.name
            &&& g.depth == t.depth
            &&& same_heads(g.children, t.children + leaves(names, t.depth))
        }),
{
    if t.depth != max {
        match callees_of(lines, t.name, memo) {
            Some((names, m1)) => {
                lemma_grow_each_heads(lines, t.children + leaves(names, t.depth), t.depth, max, m1);
            },
            None => {},
        }
    }
}

proof fn lemma_grow_within(lines: Seq<Seq<char>>, t: CallTree, max: nat, memo: Seq<(Seq<char>, nat)>)
    requires
        within_depth(t, max),
    ensures
        grow(lines, t, max, memo) matches Some((g, _)) ==> within_depth(g, max),
    decreases usize::MAX + 1 - t.depth, 1nat, 0nat,
{
    if t.depth < max {
        match callees_of(lines, t.name, memo) {
            Some((names, m1)) => {
                let kids = t.children + leaves(names, t.depth);
                assert forall|i: int| 0 <= i < kids.len() implies within_depth(
                    #[trigger] kids[i],
                    max,
                ) by {
                    if i < t.children.len() {
                        assert(kids[i] == t.children[i]);
                    } else {
                        assert(kids[i].children.len() == 0);
                    }
                }
                lemma_grow_each_within(lines, kids, t.depth, max, m1);
            },
            None => {},
        }
    }
}

proof fn lemma_grow_each_within(
    lines: Seq<Seq<char>>,
    ts: Seq<CallTree>,
    d: nat,
    max: nat,
    memo: Seq<(Seq<char>, nat)>,
)
    requires
        forall|i: int| 0 <= i < ts.len() ==> within_depth(#[trigger] ts[i], max),
    ensures
        grow_each(lines, ts, d, max, memo) matches Some((ks, _)) ==> forall|i: int|
            0 <= i < ks.len() ==> within_depth(#[trigger] ks[i], max),
    decreases usize::MAX + 1 - d, 0nat, ts.len(),
{
    if ts.len() > 0 {
        assert forall|i: int| 0 <= i < ts.drop_last().len() implies within_depth(
            #[trigger] ts.drop_last()[i],
            max,
        ) by {
            assert(ts.drop_last()[i] == ts[i]);
        }
        lemma_grow_each_within(lines, ts.drop_last(), d, max, memo);
        match grow_each(lines, ts.drop_last(), d, max, memo) {
            Some((ks, m)) => {
                if ts.last().depth == d + 1 && d + 1 <= usize::MAX {
                    lemma_grow_within(lines, ts.last(), max, m);
                }
            },
            None => {},
        }
    }
}

/// The depth limit: growing a graph none of whose nodes lies deeper than
/// level `max` gives a graph none of whose nodes lies deeper than `max`.
pub proof fn law_depth_limit(lines: Seq<Seq<char>>, t: CallTree, max: nat, memo: Seq<(Seq<char>, nat)>)
    requires
        within_depth(t, max),
    ensures
        grow(lines, t, max, memo) matches Some((g, _)) ==> within_depth(g, max),
{
    lemma_grow_within(lines, t, max, memo);
}

/// Every recorded definition line is the first definition of its name.
pub open spec fn memo_faithful(lines: Seq<Seq<char>>, memo: Seq<(Seq<char>, nat)>) -> bool {
    forall|i: int|
        0 <= i < memo.len() ==> first_definition(lines, (#[trigger] memo[i]).0, 0) == Some(
            memo[i].1,
        )
}

proof fn lemma_find_entry_faithful(lines: Seq<Seq<char>>, memo: Seq<(Seq<char>, nat)>, name: Seq<char>)
    requires
        memo_faithful(lines, memo),
    ensures
        find_entry(memo, name) matches Some(l) ==> first_definition(lines, name, 0) == Some(l),
    decreases memo.len(),
{
    if memo.len() > 0 && memo[0].0 != name {
        assert forall|i: int| 0 <= i < memo.drop_first().len() implies first_definition(
            lines,
            (#[trigger] memo.drop_first()[i]).0,
            0,
        ) == Some(memo.drop_first()[i].1) by {
            assert(memo.drop_first()[i] == memo[i + 1]);
        }
        lemma_find_entry_faithful(lines, memo.drop_first(), name);
    }
}

proof fn lemma_callees_faithful(
    lines: Seq<Seq<char>>,
    name: Seq<char>,
    m1: Seq<(Seq<char>, nat)>,
    m2: Seq<(Seq<char>, nat)>,
)
    requires
        memo_faithful(lines, m1),
        memo_faithful(lines, m2),
    ensures
        match (callees_of(lines, name, m1), callees_of(lines, name, m2)) {
            (Some((c1, n1)), Some((c2, n2))) => c1 == c2 && memo_faithful(lines, n1)
                && memo_faithful(lines, n2),
            (None, None) => true,
            _ => false,
        },
{
    lemma_find_entry_faithful(lines, m1, name);
    lemma_find_entry_faithful(lines, m2, name);
    assert forall|m: Seq<(Seq<char>, nat)>, l: nat|
        memo_faithful(lines, m) && first_definition(lines, name, 0) == Some(l) implies
        memo_faithful(lines, #[trigger] m.push((name, l))) by {
        assert forall|i: int| 0 <= i < m.push((name, l)).len() implies first_definition(
            lines,
            (#[trigger] m.push((name, l))[i]).0,
            0,
        ) == Some(m.push((name, l))[i].1) by {
            if i < m.len() {
                assert(m.push((name, l))[i] == m[i]);
            }
        }
    }
}

/// Repeating a lookup gives the same callees: as long as every remembered
/// lookup agrees with the current source, looking a name up gives the
/// callees a fresh analyzer finds, and what is remembered afterwards still
/// agrees with the source.
pub proof fn law_lookup_faithful(lines: Seq<Seq<char>>, name: Seq<char>, memo: Seq<(Seq<char>, nat)>)
    requires
        memo_faithful(lines, memo),
    ensures
        match (callees_of(lines, name, memo), callees_of(lines, name, Seq::empty())) {
            (Some((c1, m1)), Some((c2, _))) => c1 == c2 && memo_faithful(lines, m1),
            (None, None) => true,
            _ => false,
        },
{
    lemma_callees_faithful(lines, name, memo, Seq::empty());
}

proof fn lemma_grow_faithful(
    lines: Seq<Seq<char>>,
    t: CallTree,
    max: nat,
    m1: Seq<(Seq<char>, nat)>,
    m2: Seq<(Seq<char>, nat)>,
)
    requires
        memo_faithful(lines, m1),
        memo_faithful(lines, m2),
    ensures
        match (grow(lines, t, max, m1), grow(lines, t, max, m2)) {
            (Some((g1, n1)), Some((g2, n2))) => g1 == g2 && memo_faithful(lines, n1)
                && memo_faithful(lines, n2),
            (None, None) => true,
            _ => false,
        },
    decreases usize::MAX + 1 - t.depth, 1nat, 0nat,
{
    if t.depth != max {
        lemma_callees_faithful(lines, t.name, m1, m2);
        match (callees_of(lines, t.name, m1), callees_of(lines, t.name, m2)) {
            (Some((names, n1)), Some((_, n2))) => {
                lemma_grow_each_faithful(
                    lines,
                    t.children + leaves(names, t.depth),
                    t.depth,
                    max,
                    n1,
                    n2,
                );
            },
            _ => {},
        }
    }
}

proof fn lemma_grow_each_faithful(
    lines: Seq<Seq<char>>,
    ts: Seq<CallTree>,
    d: nat,
    max: nat,
    m1: Seq<(Seq<char>, nat)>,
    m2: Seq<(Seq<char>, nat)>,
)
    requires
        memo_faithful(lines, m1),
        memo_faithful(lines, m2),
    ensures
        match (grow_each(lines, ts, d, max, m1), grow_each(lines, ts, d, max, m2)) {
            (Some((k1, n1)), Some((k2, n2))) => k1 == k2 && memo_faithful(lines, n1)
                && memo_faithful(lines, n2),
            (None, None) => true,
            _ => false,
        },
    decreases usize::MAX + 1 - d, 0nat, ts.len(),
{
    if ts.len() > 0 {
        lemma_grow_each_faithful(lines, ts.drop_last(), d, max, m1, m2);
        match (
            grow_each(lines, ts.drop_last(), d, max, m1),
            grow_each(lines, ts.drop_last(), d, max, m2),
        ) {
            (Some((_, p1)), Some((_, p2))) => {
                if ts.last().depth == d + 1 && d + 1 <= usize::MAX {
                    lemma_grow_faithful(lines, ts.last(), max, p1, p2);
                }
            },
            _ => {},
        }
    }
}

/// The table of definition lines only saves work: as long as every line it
/// records is the first definition of its name in the current source, it
/// never changes the graph, and growing keeps it so. In particular growing
/// with any such table gives the graph that a fresh analyzer gives.
pub proof fn law_memo_transparent(
    lines: Seq<Seq<char>>,
    t: CallTree,
    max: nat,
    memo: Seq<(Seq<char>, nat)>,
)
    requires
        memo_faithful(lines, memo),
    ensures
        match (grow(lines, t, max, memo), grow(lines, t, max, Seq::empty())) {
            (Some((g1, n1)), Some((g2, _))) => g1 == g2 && memo_faithful(lines, n1),
            (None, None) => true,
            _ => false,
        },
{
    lemma_grow_faithful(lines, t, max, memo, Seq::empty());
}

proof fn lemma_callees_distinct(lines: Seq<Seq<char>>, name: Seq<char>, memo: Seq<(Seq<char>, nat)>)
    requires
        distinct_keys(memo),
    ensures
        callees_of(lines, name, memo) matches Some((_, m)) ==> distinct_keys(m),
{
    lemma_find_entry_absent(memo, name);
    if find_entry(memo, name) is None {
        match first_definition(lines, name, 0) {
            Some(l) => lemma_push_distinct(memo, name, l),
            None => {},
        }
    }
}

proof fn lemma_grow_distinct(lines: Seq<Seq<char>>, t: CallTree, max: nat, memo: Seq<(Seq<char>, nat)>)
    requires
        distinct_keys(memo),
    ensures
        grow(lines, t, max, memo) matches Some((_, m)) ==> distinct_keys(m),
    decreases usize::MAX + 1 - t.depth, 1nat, 0nat,
{
    if t.depth != max {
        lemma_callees_distinct(lines, t.name, memo);
        match callees_of(lines, t.name, memo) {
            Some((names, m1)) => {
                if !(names.len() > 0 && t.depth + 1 > usize::MAX) {
                    lemma_grow_each_distinct(
                        lines,
                        t.children + leaves(names, t.depth),
                        t.depth,
                        max,
                        m1,
                    );
                }
            },
            None => {},
        }
    }
}

proof fn lemma_grow_each_distinct(
    lines: Seq<Seq<char>>,
    ts: Seq<CallTree>,
    d: nat,
    max: nat,
    memo: Seq<(Seq<char>, nat)>,
)
    requires
        distinct_keys(memo),
    ensures
        grow_each(lines, ts, d, max, memo) matches Some((_, m)) ==> distinct_keys(m),
    decreases usize::MAX + 1 - d, 0nat, ts.len(),
{
    if ts.len() > 0 {
        lemma_grow_each_distinct(lines, ts.drop_last(), d, max, memo);
        match grow_each(lines, ts.drop_last(), d, max, memo) {
            Some((_, m)) => {
                if ts.last().depth == d + 1 && d + 1 <= usize::MAX {
                    lemma_grow_distinct(lines, ts.last(), max, m);
                }
            },
            None => {},
        }
    }
}

/// The table of definition lines holds each name at most once, and growing
/// keeps it so.
pub proof fn law_memo_distinct(lines: Seq<Seq<char>>, t: CallTree, max: nat, memo: Seq<(Seq<char>, nat)>)
    requires
        distinct_keys(memo),
    ensures
        grow(lines, t, max, memo) matches Some((_, m)) ==> distinct_keys(m),
{
    lemma_grow_distinct(lines, t, max, memo);
}

/// A call-graph analyzer for the callees of one function.
pub struct Parser {
    fn_hash: Vec<(String, usize)>,
    pub source: Vec<String>,
    pub root: FunctionNode,
    yaml_file_path: String,
}

impl Parser {
    /// The definition lines recorded so far.
    pub closed spec fn memo(&self) -> Seq<(Seq<char>, nat)> {
        entries_of(self.fn_hash@)
    }

    /// The path of the output file.
    pub closed spec fn output_path(&self) -> Seq<char> {
        self.yaml_file_path@
    }

    /// The source lines.
    pub closed spec fn lines(&self) -> Seq<Seq<char>> {
        lines_of(self.source@)
    }

    /// The call graph built so far.
    pub closed spec fn graph(&self) -> CallTree {
        self.root.tree()
    }

    /// What `generate_call_graph(depth)` yields: the grown graph and table,
    /// or `None` where the analysis cannot run to its end.
    pub open spec fn outcome(&self, depth: nat) -> Option<(CallTree, Seq<(Seq<char>, nat)>)> {
        grow(self.lines(), self.graph(), depth, self.memo())
    }

    /// An analyzer for the callees of `root_fn_name`, writing to
    /// `output_file_name`, with no source lines yet.
    pub fn new(root_fn_name: String, output_file_name: String) -> (p: Parser)
        ensures
            p.graph() == crate::graph::leaf(root_fn_name@, 0),
            p.lines().len() == 0,
            p.memo().len() == 0,
            distinct_keys(p.memo()),
            p.output_path() == output_file_name@,
    {
        let p = Parser {
            fn_hash: Vec::new(),
            source: Vec::new(),
            root: FunctionNode::new(root_fn_name, 0),
            yaml_file_path: output_file_name,
        };
        assert(p.memo() =~= Seq::<(Seq<char>, nat)>::empty());
        p
    }

    /// Whether the call graph's text can be written: every node's
    /// indentation fits in `usize`.
    pub fn can_output(&self) -> (r: bool)
        ensures
            r == indent_fits(self.graph(), 0),
    {
        self.root.fits_indentation(0)
    }

    /// Replaces the source lines; the graph and what is remembered stay.
    pub fn set_source(&mut self, source: Vec<String>)
        ensures
            final(self).lines() == lines_of(source@),
            final(self).graph() == old(self).graph(),
            final(self).memo() == old(self).memo(),
            final(self).output_path() == old(self).output_path(),
    {
        self.source = source;
    }

    /// The root of the call graph.
    pub fn root_node(&self) -> (r: &FunctionNode)
        ensures
            r.tree() == self.graph(),
    {
        &self.root
    }

    /// The path of the output file.
    pub fn yaml_file_path(&self) -> (r: String)
        ensures
            r@ == self.output_path(),
    {
        self.yaml_file_path.clone()
    }

    /// Grows the call graph down to level `depth` where the analysis can run
    /// to its end (and says so); elsewhere changes nothing and answers false.
    pub fn try_generate_call_graph(&mut self, depth: usize) -> (r: bool)
        ensures
            r == old(self).outcome(depth as nat) is Some,
            old(self).outcome(depth as nat) matches Some((t, m)) ==> final(self).graph() == t
                && final(self).memo() == m,
            !r ==> final(self).graph() == old(self).graph() && final(self).memo() == old(
                self,
            ).memo(),
            distinct_keys(old(self).memo()) ==> distinct_keys(final(self).memo()),
            final(self).lines() == old(self).lines(),
            final(self).output_path() == old(self).output_path(),
    {
        proof {
            if distinct_keys(self.memo()) {
                lemma_grow_distinct(self.lines(), self.graph(), depth as nat, self.memo());
            }
        }
        let mut memo = clone_entries(&self.fn_hash);
        match self.search_c_fn(depth, &self.root, &mut memo) {
            Some(g) => {
                self.root = g;
                self.fn_hash = memo;
                true
            },
            None => false,
        }
    }

    /// Grows the call graph down to level `depth`.
    pub fn generate_call_graph(&mut self, depth: usize)
        requires
            old(self).outcome(depth as nat) is Some,
        ensures
            old(self).outcome(depth as nat) matches Some((t, m)) ==> final(self).graph() == t
                && final(self).memo() == m,
            distinct_keys(old(self).memo()) ==> distinct_keys(final(self).memo()),
            final(self).lines() == old(self).lines(),
            final(self).output_path() == old(self).output_path(),
    {
        self.try_generate_call_graph(depth);
    }

    /// The text of the call graph, as the output file holds it.
    pub fn output_yaml(&self) -> (r: String)
        requires
            indent_fits(self.graph(), 0),
        ensures
            r@ == render(self.graph(), 0),
    {
        let mut out: Vec<char> = Vec::new();
        write_node_yaml(&self.root, 0, &mut out);
        string_of(out.as_slice())
    }

    /// Whether line `index` opens the definition of `fn_name`.
    fn is_function_definition(&self, index: usize, fn_name: &String) -> (r: bool)
        ensures
            r == opens_definition(self.lines(), index as int, fn_name@),
    {
        let n = self.source.len();
        if index >= n || n - index < 2 {
            return false;
        }
        let current = trimmed_line(&self.source, index);
        let next = trimmed_line(&self.source, index + 1);
        let mut head = chars_of(fn_name.as_str());
        head.push('(');
        let close = [')'];
        let open = ['{'];
        assert(close@ =~= seq![')']);
        assert(open@ =~= seq!['{']);
        has_infix(current.as_slice(), head.as_slice()) && has_char(current.as_slice(), ')')
            && is_exactly(next.as_slice(), &open)
    }

    /// The first line that opens the definition of `fn_name`.
    fn find_definition(&self, fn_name: &String) -> (r: Option<usize>)
        ensures
            match r {
                Some(k) => first_definition(self.lines(), fn_name@, 0) == Some(k as nat),
                None => first_definition(self.lines(), fn_name@, 0) is None,
            },
    {
        let n = self.source.len();
        let mut i: usize = 0;
        while i < n
            invariant
                0 <= i <= n == self.lines().len(),
                first_definition(self.lines(), fn_name@, 0) == first_definition(
                    self.lines(),
                    fn_name@,
                    i as nat,
                ),
            decreases n - i,
        {
            if self.is_function_definition(i, fn_name) {
                return Some(i);
            }
            i = i + 1;
        }
        None
    }

    /// Whether line `line` is a call statement.
    fn is_fn_call_line(&self, line: usize) -> (r: bool)
        requires
            line < self.lines().len(),
        ensures
            r == is_call_statement(trimmed(self.lines()[line as int])),
    {
        let t = trimmed_line(&self.source, line);
        let t = t.as_slice();
        let p_line = ['/', '/'];
        let p_open = ['/', '*'];
        let p_close = ['*', '/'];
        let p_semi = [';'];
        let p_and = ['&', '&'];
        let p_or = ['|', '|'];
        assert(p_line@ =~= seq!['/', '/']);
        assert(p_open@ =~= seq!['/', '*']);
        assert(p_close@ =~= seq!['*', '/']);
        assert(p_semi@ =~= seq![';']);
        assert(p_and@ =~= seq!['&', '&']);
        assert(p_or@ =~= seq!['|', '|']);
        if has_prefix(t, &p_line) {
            return false;
        }
        if has_prefix(t, &p_open) && has_suffix(t, &p_close) {
            return false;
        }
        has_suffix(t, &p_semi) && has_char(t, '(') && has_char(t, ')') && !has_char(t, '=')
            && !has_char(t, '+') && !has_char(t, '-') && !has_char(t, '*') && !has_char(t, '/')
            && !has_infix(t, &p_and) && !has_infix(t, &p_or)
    }

    /// The function that line `line` calls, if it is a call statement.
    fn find_fn_call(&self, line: usize) -> (r: Option<String>)
        requires
            line < self.lines().len(),
        ensures
            match r {
                Some(s) => called_name(trimmed(self.lines()[line as int])) == Some(s@),
                None => called_name(trimmed(self.lines()[line as int])) is None,
            },
    {
        if self.is_fn_call_line(line) {
            let t = trimmed_line(&self.source, line);
            let before = take_until(t.as_slice(), '(');
            match find_last_word(before.as_slice()) {
                Some(w) => Some(string_of(w.as_slice())),
                None => None,
            }
        } else {
            None
        }
    }

    /// The calls in the body of the definition that starts at line `line`.
    fn find_child(&self, line: usize) -> (r: Option<Vec<String>>)
        ensures
            match r {
                Some(v) => calls_at(self.lines(), line as nat) == Some(names_of(v@)),
                None => calls_at(self.lines(), line as nat) is None,
            },
    {
        let n = self.source.len();
        if line >= n || n - line < 2 {
            return None;
        }
        let first = trimmed_line(&self.source, line + 1);
        let open = ['{'];
        let close = ['}'];
        assert(open@ =~= seq!['{']);
        assert(close@ =~= seq!['}']);
        if !is_exactly(first.as_slice(), &open) {
            assert(names_of(Seq::<String>::empty()) =~= Seq::<Seq<char>>::empty());
            return Some(Vec::new());
        }
        let ghost lines = self.lines();
        let mut names: Vec<String> = Vec::new();
        let mut count: usize = 1;
        let mut cur: usize = line + 2;
        assert(names_of(names@) + Seq::<Seq<char>>::empty() =~= Seq::<Seq<char>>::empty());
        while count > 0
            invariant
                lines == self.lines(),
                n == lines.len(),
                line + 2 <= cur <= n,
                open@ == seq!['{'],
                close@ == seq!['}'],
                calls_at(lines, line as nat) == match body_calls(lines, cur as int, count as nat) {
                    Some(rest) => Some(names_of(names@) + rest),
                    None => None,
                },
            decreases n - cur,
        {
            if cur >= n {
                return None;
            }
            let t = trimmed_line(&self.source, cur);
            let ghost c0 = count as nat;
            if is_exactly(t.as_slice(), &close) {
                count = count - 1;
            }
            if is_exactly(t.as_slice(), &open) {
                if count == usize::MAX {
                    return None;
                }
                count = count + 1;
            }
            let ghost before = names_of(names@);
            let ghost part: Seq<Seq<char>> = match called_name(t@) {
                Some(n) => seq![n],
                None => Seq::empty(),
            };
            assert(body_calls(lines, cur as int, c0) == match body_calls(
                lines,
                cur + 1,
                count as nat,
            ) {
                Some(rest) => Some(part + rest),
                None => None,
            });
            match self.find_fn_call(cur) {
                Some(s) => {
                    names.push(s);
                    assert(names_of(names@) =~= before + part);
                },
                None => {
                    assert(names_of(names@) =~= before + part);
                },
            }
            proof {
                match body_calls(lines, cur + 1, count as nat) {
                    Some(rest) => {
                        assert(before + (part + rest) =~= names_of(names@) + rest);
                    },
                    None => {},
                }
            }
            cur = cur + 1;
        }
        assert(names_of(names@) + Seq::<Seq<char>>::empty() =~= names_of(names@));
        Some(names)
    }

    /// The functions `fn_name` calls, recording a newly found definition
    /// line in `memo`.
    fn parse_c_fn(&self, fn_name: &String, memo: &mut Vec<(String, usize)>) -> (r: Option<
        Vec<String>,
    >)
        ensures
            match callees_of(self.lines(), fn_name@, entries_of(old(memo)@)) {
                Some((cs, m)) => r matches Some(v) && names_of(v@) == cs && entries_of(
                    final(memo)@,
                ) == m,
                None => r is None,
            },
    {
        match lookup(memo, fn_name) {
            Some(line) => self.find_child(line),
            None => match self.find_definition(fn_name) {
                None => {
                    assert(names_of(Seq::<String>::empty()) =~= Seq::<Seq<char>>::empty());
                    Some(Vec::new())
                },
                Some(line) => {
                    let ghost before = entries_of(memo@);
                    memo.push((fn_name.clone(), line));
                    assert(entries_of(memo@) =~= before.push((fn_name@, line as nat)));
                    self.find_child(line)
                },
            },
        }
    }

    /// The graph below `node` grown down to level `depth`.
    fn search_c_fn(&self, depth: usize, node: &FunctionNode, memo: &mut Vec<(String, usize)>) -> (r:
        Option<FunctionNode>)
        ensures
            match grow(self.lines(), node.tree(), depth as nat, entries_of(old(memo)@)) {
                Some((t, m)) => r matches Some(g) && g.tree() == t && entries_of(final(memo)@)
                    == m,
                None => r is None,
            },
        decreases usize::MAX - node.tree().depth,
    {
        let d = node.curr_depth();
        if d == depth {
            return Some(node.duplicate());
        }
        let ghost t = node.tree();
        let ghost lines = self.lines();
        let ghost m0 = entries_of(memo@);
        let name = node.name();
        let names = match self.parse_c_fn(&name, memo) {
            Some(v) => v,
            None => {
                return None;
            },
        };
        if names.len() > 0 && d == usize::MAX {
            return None;
        }
        let ghost kids = t.children + leaves(names_of(names@), t.depth);
        let old_count = node.num_children();
        let mut grown: Vec<FunctionNode> = Vec::new();
        let ghost m1 = entries_of(memo@);
        assert(kids.take(0) =~= Seq::<CallTree>::empty());
        assert(trees_of(grown@) =~= Seq::<CallTree>::empty());
        while grown.len() < old_count || grown.len() - old_count < names.len()
            invariant
                t == node.tree(),
                lines == self.lines(),
                d == t.depth,
                d != depth,
                !(names@.len() > 0 && t.depth + 1 > usize::MAX),
                callees_of(lines, t.name, m0) == Some((names_of(names@), m1)),
                m0 == entries_of(old(memo)@),
                old_count == t.children.len(),
                kids == t.children + leaves(names_of(names@), t.depth),
                grown@.len() <= kids.len(),
                forall|j: int| 0 <= j < grown@.len() ==> #[trigger] grown@[j].tree().depth == d + 1,
                grow_each(lines, kids.take(grown@.len() as int), d as nat, depth as nat, m1)
                    == Some((trees_of(grown@), entries_of(memo@))),
            decreases kids.len() - grown@.len(),
        {
            let i = grown.len();
            let next = if i < old_count {
                node.child_depth_step(i);
                node.child(i).duplicate()
            } else {
                FunctionNode::new(names[i - old_count].clone(), d + 1)
            };
            let next_depth = next.curr_depth();
            assert(next_depth == d + 1);
            assert(next.tree() == kids[i as int]);
            assert(kids.take(i + 1).drop_last() =~= kids.take(i as int));
            assert(kids.take(i + 1).last() == kids[i as int]);
            match self.search_c_fn(depth, &next, memo) {
                Some(g) => {
                    let ghost prev = grown@;
                    grown.push(g);
                    assert(trees_of(grown@) =~= trees_of(prev).push(g.tree()));
                },
                None => {
                    proof {
                        assert(next.tree().depth == d + 1);
                        assert(grow_each(lines, kids.take(i + 1), d as nat, depth as nat, m1) is None);
                        lemma_grow_each_prefix_fails(lines, kids, d as nat, depth as nat, m1, i + 1);
                    }
                    return None;
                },
            }
        }
        assert(kids.take(kids.len() as int) =~= kids);
        let g = FunctionNode::with_calls(name, d, grown);
        Some(g)
    }
}

} // verus!
