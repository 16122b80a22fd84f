//! The callee analyzer: the functions a function calls, level by level.
//!
//! A function `f` is defined where a line (taken without outer blanks) that
//! is no comment names `f(` at its start or after a blank (possibly behind
//! a `*`), and its parameter list closes, over lines ending with `,`, on a
//! line ending with `)` that is followed by a line that is exactly `{`; or
//! where that first line itself holds `)` and ends with `{`. The body starts
//! at the first line after the definition's first line that begins with
//! `{`, and runs until the count of `{` and `}` characters balances. Every
//! identifier followed by `(` on a body line that is no comment is a call.
//!
//! A header that is still open at the last line is no definition: the line
//! that would hold its `{` does not exist.
//!
//! A result of `None` in the models below marks an input on which the
//! analysis cannot run to its end: a body that runs past the last line,
//! more `}` than open braces, a count or level beyond `usize`, or a line
//! pattern that does not compile.
use vstd::prelude::*;
use crate::graph::{
    CallTree, FunctionNode, leaf, leaves, with_children, render, trees_of, write_node_yaml, indent_fits,
    within_depth, same_heads,
};
use crate::pattern::{Pattern, regex_compiles, regex_is_match, regex_match_texts};
use crate::source::{
    lines_of, trimmed_line, entries_of, find_entry, lookup, clone_entries, names_of, holds_name,
    clone_names, distinct_keys, distinct_names, lemma_find_entry_absent, lemma_push_distinct,
    lemma_push_distinct_name,
};
use crate::text::{
    trimmed, contains, occurs_at, starts_with, ends_with, occurrences, chars_of, string_of, has_infix,
    has_char, has_prefix, has_suffix, is_exactly, count_char,
};

verus! {

/// The pattern that tells whether a line can hold a call: a non-blank
/// character followed by `(`.
pub open spec fn call_shape() -> Seq<char> {
    r"\S\("@
}

/// The pattern of a called identifier with its `(`.
pub open spec fn call_word() -> Seq<char> {
    r"\b[a-zA-Z_][a-zA-Z0-9_]*\("@
}

/// A (trimmed) line is a comment line.
pub open spec fn is_comment(t: Seq<char>) -> bool {
    ||| starts_with(t, seq!['/', '/'])
    ||| starts_with(t, seq!['/', '*'])
    ||| starts_with(t, seq!['*'])
    ||| ends_with(t, seq!['*', '/'])
}

/// A (trimmed) line begins a definition header of `name`.
pub open spec fn def_start(name: Seq<char>, t: Seq<char>) -> bool {
    let head = name.push('(');
    ||| starts_with(t, head)
    ||| contains(t, seq![' '] + head)
    ||| starts_with(t, seq!['*'] + head)
    ||| contains(t, seq![' ', '*'] + head)
}

/// Reading a definition header of `name` from line `k`: `params` once the
/// header's first line was read, `closed` once its parameter list closed.
/// A header that reaches past the last line is no definition.
pub open spec fn header_from(
    lines: Seq<Seq<char>>,
    name: Seq<char>,
    k: int,
    params: bool,
    closed: bool,
) -> bool
    decreases lines.len() - k,
{
    if k < 0 || k >= lines.len() {
        false
    } else {
        let t = trimmed(lines[k]);
        if !params {
            if is_comment(t) || !def_start(name, t) {
                false
            } else if ends_with(t, seq![')']) {
                header_from(lines, name, k + 1, true, true)
            } else if contains(t, seq![')']) && ends_with(t, seq!['{']) {
                true
            } else {
                header_from(lines, name, k + 1, true, false)
            }
        } else if !closed {
            if ends_with(t, seq![',']) {
                header_from(lines, name, k + 1, true, false)
            } else if ends_with(t, seq![')']) {
                header_from(lines, name, k + 1, true, true)
            } else {
                false
            }
        } else {
            t == seq!['{']
        }
    }
}

/// The first line at or after `from` that starts the definition of `name`.
pub open spec fn first_definition(lines: Seq<Seq<char>>, name: Seq<char>, from: nat) -> Option<nat>
    decreases lines.len() - from,
{
    if from >= lines.len() {
        None
    } else if header_from(lines, name, from as int, false, false) {
        Some(from)
    } else {
        first_definition(lines, name, from + 1)
    }
}

/// A (trimmed) line may hold calls.
pub open spec fn is_call_line(t: Seq<char>) -> bool {
    &&& !is_comment(t)
    &&& regex_is_match(call_shape(), t)
    &&& contains(t, seq![')'])
}

/// `s` without its last character (unchanged where empty).
pub open spec fn without_last(s: Seq<char>) -> Seq<char> {
    if s.len() == 0 {
        s
    } else {
        s.drop_last()
    }
}

/// The functions a (trimmed) line `t` calls, from left to right, given
/// whether `call_shape` matches in `t` and the texts `ms` of the matches of
/// `call_word` in `t`: each match without its `(`, where `t` is no comment
/// line, the shape matches and `t` holds `)`; else none.
pub open spec fn calls_given(t: Seq<char>, shape_matches: bool, ms: Seq<Seq<char>>) -> Seq<
    Seq<char>,
> {
    if !is_comment(t) && shape_matches && contains(t, seq![')']) {
        Seq::new(ms.len(), |i: int| without_last(ms[i]))
    } else {
        Seq::empty()
    }
}

/// The functions a (trimmed) line calls, from left to right.
pub open spec fn call_names(t: Seq<char>) -> Seq<Seq<char>> {
    calls_given(t, regex_is_match(call_shape(), t), regex_match_texts(call_word(), t))
}

/// The first line at or after `k` that begins with `{`.
pub open spec fn body_start(lines: Seq<Seq<char>>, k: nat) -> Option<nat>
    decreases lines.len() - k,
{
    if k >= lines.len() {
        None
    } else if starts_with(trimmed(lines[k as int]), seq!['{']) {
        Some(k)
    } else {
        body_start(lines, k + 1)
    }
}

/// The calls found from line `k` on, with `count` braces open, until the
/// count drops to zero.
pub open spec fn body_calls(lines: Seq<Seq<char>>, k: int, count: nat) -> Option<Seq<Seq<char>>>
    decreases lines.len() - k,
{
    if count == 0 {
        Some(Seq::empty())
    } else if k < 0 || k >= lines.len() {
        None
    } else {
        let t = trimmed(lines[k]);
        let closes = occurrences(t, '}');
        if closes > count {
            None
        } else {
            let next = (count - closes) + occurrences(t, '{');
            if next > usize::MAX {
                None
            } else {
                match body_calls(lines, k + 1, next as nat) {
                    None => None,
                    Some(rest) => Some(call_names(t) + rest),
                }
            }
        }
    }
}

/// The calls in the body of the definition whose first line is `line`.
pub open spec fn calls_at(lines: Seq<Seq<char>>, line: nat) -> Option<Seq<Seq<char>>> {
    match body_start(lines, line + 1) {
        None => Some(Seq::empty()),
        Some(k) => body_calls(lines, k + 1 as int, 1),
    }
}

/// What the callee analyzer remembers between lookups: the definition line
/// of each function found so far, and the functions found undefined.
pub struct CalleeMemo {
    pub defined: Seq<(Seq<char>, nat)>,
    pub undefined: Seq<Seq<char>>,
}

/// The functions `name` calls, and what is remembered after looking it up.
pub open spec fn callees_of(lines: Seq<Seq<char>>, name: Seq<char>, memo: CalleeMemo) -> Option<
    (Seq<Seq<char>>, CalleeMemo),
> {
    if memo.undefined.contains(name) {
        Some((Seq::empty(), memo))
    } else {
        match find_entry(memo.defined, name) {
            Some(line) => match calls_at(lines, line) {
                Some(cs) => Some((cs, memo)),
                None => None,
            },
            None => match first_definition(lines, name, 0) {
                None => Some(
                    (
                        Seq::empty(),
                        CalleeMemo { defined: memo.defined, undefined: memo.undefined.push(name) },
                    ),
                ),
                Some(line) => match calls_at(lines, line) {
                    Some(cs) => Some(
                        (
                            cs,
                            CalleeMemo {
                                defined: memo.defined.push((name, line)),
                                undefined: memo.undefined,
                            },
                        ),
                    ),
                    None => None,
                },
            },
        }
    }
}

/// The graph below `t` grown for the limit `max`: under the limit 0 it is
/// left as it is; otherwise the callees of `t` are appended to its
/// children, and then each child, old and new, is grown in turn where its
/// level is below `max`.
pub open spec fn grow(lines: Seq<Seq<char>>, t: CallTree, max: nat, memo: CalleeMemo) -> Option<
    (CallTree, CalleeMemo),
>
    decreases max - t.depth, 1nat, 0nat,
{
    if max == 0 {
        Some((t, memo))
    } else {
    match callees_of(lines, t.name, memo) {
        None => None,
        Some((names, m1)) => if names.len() > 0 && t.depth + 1 > usize::MAX {
            None
        } else {
            match grow_each(lines, t.children + leaves(names, t.depth), t.depth, max, m1) {
                None => None,
                Some((kids, m2)) => Some((with_children(t, kids), m2)),
            }
        },
    }
    }
}

/// The nodes `ts` (children of a node at level `d`) grown from left to right.
pub open spec fn grow_each(
    lines: Seq<Seq<char>>,
    ts: Seq<CallTree>,
    d: nat,
    max: nat,
    memo: CalleeMemo,
) -> Option<(Seq<CallTree>, CalleeMemo)>
    decreases max - d, 0nat, ts.len(),
{
    if ts.len() == 0 {
        Some((Seq::empty(), memo))
    } else {
        match grow_each(lines, ts.drop_last(), d, max, memo) {
            None => None,
            Some((ks, m)) => if max > d + 1 {
                if ts.last().depth == d + 1 {
                    match grow(lines, ts.last(), max, m) {
                        None => None,
                        Some((k, m2)) => Some((ks.push(k), m2)),
                    }
                } else {
                    None
                }
            } else {
                Some((ks.push(ts.last()), m))
            },
        }
    }
}

/// Growing a list fails when growing one of its prefixes fails.
proof fn lemma_grow_each_prefix_fails(
    lines: Seq<Seq<char>>,
    ts: Seq<CallTree>,
    d: nat,
    max: nat,
    memo: CalleeMemo,
    k: int,
)
    requires
        0 <= k <= ts.len(),
        grow_each(lines, ts.take(k), d, max, memo) is None,
    ensures
        grow_each(lines, ts, d, max, memo) is None,
    decreases ts.len() - k,
{
    if k < ts.len() {
        assert(ts.take(k + 1).drop_last() =~= ts.take(k));
        lemma_grow_each_prefix_fails(lines, ts, d, max, memo, k + 1);
    } else {
        assert(ts.take(k) =~= ts);
    }
}

/// Growing keeps the names and levels of the nodes grown, in order.
proof fn lemma_grow_each_heads(lines: Seq<Seq<char>>, ts: Seq<CallTree>, d: nat, max: nat, memo: CalleeMemo)
    ensures
        grow_each(lines, ts, d, max, memo) matches Some((ks, _)) ==> same_heads(ks, ts),
    decreases ts.len(),
{
    if ts.len() > 0 {
        lemma_grow_each_heads(lines, ts.drop_last(), d, max, memo);
        match grow_each(lines, ts.drop_last(), d, max, memo) {
            Some((ks0, m)) => {
                let k = if max > d + 1 {
                    match grow(lines, ts.last(), max, m) {
                        Some((k, _)) => k,
                        None => ts.last(),
                    }
                } else {
                    ts.last()
                };
                assert(k.name == ts.last().name && k.depth == ts.last().depth);
                let ks = ks0.push(k);
                assert forall|i: int| 0 <= i < ks.len() implies (#[trigger] ks[i]).name
                    == ts[i].name && ks[i].depth == ts[i].depth by {
                    if i < ks0.len() {
                        assert(ts[i] == ts.drop_last()[i]);
                    }
                }
            },
            None => {},
        }
    }
}

/// The callees of a line: where a (trimmed) line is no comment, holds `)`
/// and the call shape matches in it, its callees are exactly the matches of
/// the called identifier, in order, each without its `(`, however the line
/// ends; a line that is a comment, holds no `)`, or where the shape does not
/// match, has none.
pub proof fn law_call_line_callees(t: Seq<char>, ms: Seq<Seq<char>>)
    ensures
        !starts_with(t, seq!['/', '/']) && !starts_with(t, seq!['/', '*']) && !starts_with(
            t,
            seq!['*'],
        ) && !ends_with(t, seq!['*', '/']) && contains(t, seq![')']) ==> {
            &&& calls_given(t, true, ms).len() == ms.len()
            &&& forall|i: int|
                0 <= i < ms.len() ==> ends_with(ms[i], seq!['(']) ==> (#[trigger] calls_given(
                    t,
                    true,
                    ms,
                )[i]).push('(') == ms[i]
            &&& forall|i: int|
                0 <= i < ms.len() ==> #[trigger] calls_given(t, true, ms)[i] == without_last(ms[i])
            &&& regex_is_match(call_shape(), t) ==> call_names(t) == calls_given(
                t,
                true,
                regex_match_texts(call_word(), t),
            )
        },
        forall|shape: bool|
            #![trigger calls_given(t, shape, ms)]
            calls_given(t, shape, ms).len() > 0 ==> shape && contains(t, seq![')']) && !starts_with(
                t,
                seq!['/', '/'],
            ) && !starts_with(t, seq!['/', '*']) && !starts_with(t, seq!['*']) && !ends_with(
                t,
                seq!['*', '/'],
            ),
{
    assert forall|i: int|
        0 <= i < ms.len() && ends_with(ms[i], seq!['(']) implies without_last(ms[i]).push('(')
        == ms[i] by {
        let m = ms[i];
        assert(m.subrange(m.len() - 1, m.len() as int) =~= seq!['(']);
        assert(m[m.len() - 1] == m.subrange(m.len() - 1, m.len() as int)[0]);
        assert(m.drop_last().push('(') =~= m);
    }
}

/// The forms of a definition header's first line: a (trimmed) line begins a
/// header of `name` exactly when it starts with `name(` or `*name(`, or
/// holds ` name(` or ` *name(`.
pub proof fn law_header_start_forms(name: Seq<char>, t: Seq<char>)
    ensures
        def_start(name, t) <==> {
            ||| starts_with(t, name.push('('))
            ||| contains(t, seq![' '] + name.push('('))
            ||| starts_with(t, seq!['*'] + name.push('('))
            ||| contains(t, seq![' ', '*'] + name.push('('))
        },
{
}

/// A one-line header: a (trimmed) line that is no comment, begins a header
/// of `name` in one of its forms and ends with `)`, followed by a line that
/// is exactly `{`, starts the definition of `name`.
pub proof fn law_one_line_header(lines: Seq<Seq<char>>, name: Seq<char>, k: int)
    requires
        0 <= k,
        k + 1 < lines.len(),
        !starts_with(trimmed(lines[k]), seq!['/', '/']),
        !starts_with(trimmed(lines[k]), seq!['/', '*']),
        !starts_with(trimmed(lines[k]), seq!['*']),
        !ends_with(trimmed(lines[k]), seq!['*', '/']),
        starts_with(trimmed(lines[k]), name.push('(')) || contains(
            trimmed(lines[k]),
            seq![' '] + name.push('('),
        ) || starts_with(trimmed(lines[k]), seq!['*'] + name.push('(')) || contains(
            trimmed(lines[k]),
            seq![' ', '*'] + name.push('('),
        ),
        ends_with(trimmed(lines[k]), seq![')']),
        trimmed(lines[k + 1]) == seq!['{'],
    ensures
        header_from(lines, name, k, false, false),
{
    assert(header_from(lines, name, k + 1, true, true));
}

/// The other header forms, and comments: a (trimmed) first line that is no
/// comment, begins a header of `name` in one of its forms, does not end
/// with `)`, holds `)` and ends with `{` starts the definition on its own;
/// one whose parameter list is closed on the next line (ending with `)`),
/// with `{` on the line after, starts it too; a comment line starts none.
pub proof fn law_other_headers(lines: Seq<Seq<char>>, name: Seq<char>, k: int)
    ensures
        ({
            let t = trimmed(lines[k]);
            &&& 0 <= k < lines.len()
            &&& !starts_with(t, seq!['/', '/'])
            &&& !starts_with(t, seq!['/', '*'])
            &&& !starts_with(t, seq!['*'])
            &&& !ends_with(t, seq!['*', '/'])
            &&& starts_with(t, name.push('(')) || contains(t, seq![' '] + name.push('('))
                || starts_with(t, seq!['*'] + name.push('(')) || contains(
                t,
                seq![' ', '*'] + name.push('('),
            )
            &&& !ends_with(t, seq![')'])
            &&& contains(t, seq![')'])
            &&& ends_with(t, seq!['{'])
        }) ==> header_from(lines, name, k, false, false),
        ({
            let t = trimmed(lines[k]);
            &&& 0 <= k
            &&& k + 2 < lines.len()
            &&& !starts_with(t, seq!['/', '/'])
            &&& !starts_with(t, seq!['/', '*'])
            &&& !starts_with(t, seq!['*'])
            &&& !ends_with(t, seq!['*', '/'])
            &&& starts_with(t, name.push('(')) || contains(t, seq![' '] + name.push('('))
                || starts_with(t, seq!['*'] + name.push('(')) || contains(
                t,
                seq![' ', '*'] + name.push('('),
            )
            &&& !ends_with(t, seq![')'])
            &&& !contains(t, seq![')'])
            &&& ends_with(trimmed(lines[k + 1]), seq![')'])
            &&& trimmed(lines[k + 2]) == seq!['{']
        }) ==> header_from(lines, name, k, false, false),
        (starts_with(trimmed(lines[k]), seq!['/', '/']) || starts_with(
            trimmed(lines[k]),
            seq!['/', '*'],
        ) || starts_with(trimmed(lines[k]), seq!['*']) || ends_with(
            trimmed(lines[k]),
            seq!['*', '/'],
        )) ==> !header_from(lines, name, k, false, false),
{
    if 0 <= k && k + 2 < lines.len() && ends_with(trimmed(lines[k + 1]), seq![')']) {
        let u = trimmed(lines[k + 1]);
        assert(!ends_with(u, seq![','])) by {
            assert(u.subrange(u.len() - 1, u.len() as int)[0] == u[u.len() - 1]);
        }
        assert(header_from(lines, name, k + 2, true, true) == (trimmed(lines[k + 2]) == seq!['{']));
        assert(header_from(lines, name, k + 1, true, false) == header_from(lines, name, k + 2, true, true));
    }
}

proof fn lemma_first_definition_from(lines: Seq<Seq<char>>, name: Seq<char>, from: nat, k: nat)
    ensures
        first_definition(lines, name, from) == Some(k) <==> {
            &&& from <= k < lines.len()
            &&& header_from(lines, name, k as int, false, false)
            &&& forall|j: int| from <= j < k ==> !header_from(lines, name, j, false, false)
        },
    decreases lines.len() - from,
{
    if from < lines.len() {
        if header_from(lines, name, from as int, false, false) {
            if k > from {
                assert(from <= from < k);
            }
        } else {
            lemma_first_definition_from(lines, name, from + 1, k);
            if k > from {
                assert((forall|j: int| from <= j < k ==> !header_from(lines, name, j, false, false))
                    <==> (forall|j: int|
                    from + 1 <= j < k ==> !header_from(lines, name, j, false, false))) by {
                    if forall|j: int| from + 1 <= j < k ==> !header_from(lines, name, j, false, false) {
                        assert forall|j: int| from <= j < k implies !header_from(
                            lines,
                            name,
                            j,
                            false,
                            false,
                        ) by {
                            if j != from {
                                assert(from + 1 <= j < k);
                            }
                        }
                    }
                }
            }
        }
    }
}

/// The definition a lookup uses is the first one: `first_definition` is line
/// `k` exactly when a definition of `name` starts at `k` and at no earlier
/// line.
pub proof fn law_first_definition(lines: Seq<Seq<char>>, name: Seq<char>, k: nat)
    ensures
        first_definition(lines, name, 0) == Some(k) <==> {
            &&& k < lines.len()
            &&& header_from(lines, name, k as int, false, false)
            &&& forall|j: int| 0 <= j < k ==> !header_from(lines, name, j, false, false)
        },
{
    lemma_first_definition_from(lines, name, 0, k);
}

/// A body of one line: where the line after a definition's first line is
/// `{`, the next one holds no brace and the one after it is `}`, the calls
/// of the definition are those of that one line; where that line is a call
/// line they are the matches of the called identifier, each without its `(`.
pub proof fn law_one_line_body(lines: Seq<Seq<char>>, d: nat)
    requires
        d + 3 < lines.len(),
        trimmed(lines[d + 1 as int]) == seq!['{'],
        occurrences(trimmed(lines[d + 2 as int]), '{') == 0,
        occurrences(trimmed(lines[d + 2 as int]), '}') == 0,
        trimmed(lines[d + 3 as int]) == seq!['}'],
    ensures
        calls_at(lines, d) == Some(call_names(trimmed(lines[d + 2 as int]))),
        ({
            let t = trimmed(lines[d + 2 as int]);
            !starts_with(t, seq!['/', '/']) && !starts_with(t, seq!['/', '*']) && !starts_with(
                t,
                seq!['*'],
            ) && !ends_with(t, seq!['*', '/']) && contains(t, seq![')']) && regex_is_match(
                call_shape(),
                t,
            ) ==> calls_at(lines, d) == Some(
                Seq::new(
                    regex_match_texts(call_word(), t).len(),
                    |i: int| without_last(regex_match_texts(call_word(), t)[i]),
                ),
            )
        }),
{
    let close = seq!['}'];
    assert(close.drop_last() =~= Seq::<char>::empty());
    assert(close.len() == 1 && close.last() == '}');
    assert(occurrences(close.drop_last(), '}') == 0);
    assert(occurrences(close.drop_last(), '{') == 0);
    assert(occurrences(close, '}') == 1);
    assert(occurrences(close, '{') == 0);
    assert(!contains(close, seq![')'])) by {
        if contains(close, seq![')']) {
            let i = choose|i: int| occurs_at(close, seq![')'], i);
            assert(close.subrange(i, i + 1)[0] == close[i]);
        }
    }
    assert(call_names(close) =~= Seq::<Seq<char>>::empty());
    assert(starts_with(seq!['{'], seq!['{'])) by {
        assert(seq!['{'].subrange(0, 1) =~= seq!['{']);
    }
    assert(body_start(lines, d + 1) == Some((d + 1) as nat));
    assert(body_calls(lines, d + 4 as int, 0) == Some(Seq::<Seq<char>>::empty()));
    assert(body_calls(lines, d + 3 as int, 1) == Some(Seq::<Seq<char>>::empty()));
    let t = trimmed(lines[d + 2 as int]);
    assert(body_calls(lines, d + 2 as int, 1) == Some(call_names(t) + Seq::<Seq<char>>::empty()));
    assert(call_names(t) + Seq::<Seq<char>>::empty() =~= call_names(t));
}

/// The children of a grown node: under the limit 0 the node is left as it
/// is; under any other limit it keeps its children, in order, and gets one
/// more child per call in its body, in the order of the calls, one level
/// below it, each named after the called function.
pub proof fn law_grown_children(lines: Seq<Seq<char>>, t: CallTree, max: nat, memo: CalleeMemo)
    ensures
        max == 0 ==> grow(lines, t, max, memo) == Some((t, memo)),
        max > 0 ==> (grow(lines, t, max, memo) matches Some((g, _)) ==> {
            &&& callees_of(lines, t.name, memo) matches Some((names, _))
            &&& g.name == t.name
            &&& g.depth == t.depth
            &&& same_heads(g.children, t.children + leaves(names, t.depth))
        }),
{
    if max > 0 {
        match callees_of(lines, t.name, memo) {
            Some((names, m1)) => {
                lemma_grow_each_heads(lines, t.children + leaves(names, t.depth), t.depth, max, m1);
            },
            None => {},
        }
    }
}

proof fn lemma_grow_within(lines: Seq<Seq<char>>, t: CallTree, max: nat, bound: nat, memo: CalleeMemo)
    requires
        within_depth(t, bound),
        max <= bound,
        t.depth + 1 <= bound,
    ensures
        grow(lines, t, max, memo) matches Some((g, _)) ==> within_depth(g, bound),
    decreases max - t.depth, 1nat, 0nat,
{
    match callees_of(lines, t.name, memo) {
        Some((names, m1)) => {
            let kids = t.children + leaves(names, t.depth);
            assert forall|i: int| 0 <= i < kids.len() implies within_depth(#[trigger] kids[i], bound)
                by {
                if i < t.children.len() {
                    assert(kids[i] == t.children[i]);
                } else {
                    assert(kids[i].children.len() == 0);
                }
            }
            lemma_grow_each_within(lines, kids, t.depth, max, bound, m1);
        },
        None => {},
    }
}

proof fn lemma_grow_each_within(
    lines: Seq<Seq<char>>,
    ts: Seq<CallTree>,
    d: nat,
    max: nat,
    bound: nat,
    memo: CalleeMemo,
)
    requires
        forall|i: int| 0 <= i < ts.len() ==> within_depth(#[trigger] ts[i], bound),
        max <= bound,
    ensures
        grow_each(lines, ts, d, max, memo) matches Some((ks, _)) ==> forall|i: int|
            0 <= i < ks.len() ==> within_depth(#[trigger] ks[i], bound),
    decreases max - d, 0nat, ts.len(),
{
    if ts.len() > 0 {
        assert forall|i: int| 0 <= i < ts.drop_last().len() implies within_depth(
            #[trigger] ts.drop_last()[i],
            bound,
        ) by {
            assert(ts.drop_last()[i] == ts[i]);
        }
        lemma_grow_each_within(lines, ts.drop_last(), d, max, bound, memo);
        match grow_each(lines, ts.drop_last(), d, max, memo) {
            Some((ks, m)) => {
                if max > d + 1 && ts.last().depth == d + 1 {
                    lemma_grow_within(lines, ts.last(), max, bound, m);
                }
            },
            None => {},
        }
    }
}

/// The depth limit: the start node is searched under every limit but 0,
/// and below it only nodes above level `max` are; so growing a graph none of whose nodes lies
/// deeper than `bound`, where `bound` is at least `max` and deeper than the
/// start node, gives a graph none of whose nodes lies deeper than `bound`.
pub proof fn law_depth_limit(lines: Seq<Seq<char>>, t: CallTree, max: nat, bound: nat, memo: CalleeMemo)
    requires
        within_depth(t, bound),
        max <= bound,
        t.depth + 1 <= bound,
    ensures
        grow(lines, t, max, memo) matches Some((g, _)) ==> within_depth(g, bound),
{
    lemma_grow_within(lines, t, max, bound, memo);
}

/// Every remembered lookup agrees with the current source: each recorded
/// line is the first definition of its name, and each function recorded as
/// undefined has no definition.
pub open spec fn memo_faithful(lines: Seq<Seq<char>>, memo: CalleeMemo) -> bool {
    &&& forall|i: int|
        0 <= i < memo.defined.len() ==> first_definition(lines, (#[trigger] memo.defined[i]).0, 0)
            == Some(memo.defined[i].1)
    &&& forall|i: int|
        0 <= i < memo.undefined.len() ==> first_definition(lines, #[trigger] memo.undefined[i], 0)
            == None::<nat>
}

proof fn lemma_find_entry_faithful(lines: Seq<Seq<char>>, defined: Seq<(Seq<char>, nat)>, name: Seq<char>)
    requires
        forall|i: int|
            0 <= i < defined.len() ==> first_definition(lines, (#[trigger] defined[i]).0, 0) == Some(
                defined[i].1,
            ),
    ensures
        find_entry(defined, name) matches Some(l) ==> first_definition(lines, name, 0) == Some(l),
    decreases defined.len(),
{
    if defined.len() > 0 && defined[0].0 != name {
        assert forall|i: int| 0 <= i < defined.drop_first().len() implies first_definition(
            lines,
            (#[trigger] defined.drop_first()[i]).0,
            0,
        ) == Some(defined.drop_first()[i].1) by {
            assert(defined.drop_first()[i] == defined[i + 1]);
        }
        lemma_find_entry_faithful(lines, defined.drop_first(), name);
    }
}

proof fn lemma_callees_faithful(lines: Seq<Seq<char>>, name: Seq<char>, m1: CalleeMemo, m2: CalleeMemo)
    requires
        memo_faithful(lines, m1),
        memo_faithful(lines, m2),
    ensures
        match (callees_of(lines, name, m1), callees_of(lines, name, m2)) {
            (Some((c1, n1)), Some((c2, n2))) => c1 == c2 && memo_faithful(lines, n1)
                && memo_faithful(lines, n2),
            (None, None) => true,
            _ => false,
        },
{
    lemma_find_entry_faithful(lines, m1.defined, name);
    lemma_find_entry_faithful(lines, m2.defined, name);
    assert forall|m: CalleeMemo|
        memo_faithful(lines, m) && m.undefined.contains(name) implies first_definition(
        lines,
        name,
        0,
    ) == None::<nat> by {
        let i = choose|i: int| 0 <= i < m.undefined.len() && m.undefined[i] == name;
        assert(first_definition(lines, m.undefined[i], 0) == None::<nat>);
    }
    assert forall|m: CalleeMemo, l: nat|
        memo_faithful(lines, m) && first_definition(lines, name, 0) == Some(l) implies
        #[trigger] memo_faithful(
        lines,
        CalleeMemo { defined: m.defined.push((name, l)), undefined: m.undefined },
    ) by {
        let n = CalleeMemo { defined: m.defined.push((name, l)), undefined: m.undefined };
        assert forall|i: int| 0 <= i < n.defined.len() implies first_definition(
            lines,
            (#[trigger] n.defined[i]).0,
            0,
        ) == Some(n.defined[i].1) by {
            if i < m.defined.len() {
                assert(n.defined[i] == m.defined[i]);
            }
        }
    }
    assert forall|m: CalleeMemo|
        memo_faithful(lines, m) && first_definition(lines, name, 0) == None::<nat> implies
        #[trigger] memo_faithful(
        lines,
        CalleeMemo { defined: m.defined, undefined: m.undefined.push(name) },
    ) by {
        let n = CalleeMemo { defined: m.defined, undefined: m.undefined.push(name) };
        assert forall|i: int| 0 <= i < n.undefined.len() implies first_definition(
            lines,
            #[trigger] n.undefined[i],
            0,
        ) == None::<nat> by {
            if i < m.undefined.len() {
                assert(n.undefined[i] == m.undefined[i]);
            }
        }
    }
}

/// Repeating a lookup gives the same callees: as long as every remembered
/// lookup agrees with the current source, looking a name up gives the
/// callees a fresh analyzer finds, and what is remembered afterwards still
/// agrees with the source.
pub proof fn law_lookup_faithful(lines: Seq<Seq<char>>, name: Seq<char>, memo: CalleeMemo)
    requires
        memo_faithful(lines, memo),
    ensures
        match (callees_of(lines, name, memo), callees_of(lines, name, CalleeMemo { defined: Seq::empty(), undefined: Seq::empty() })) {
            (Some((c1, m1)), Some((c2, _))) => c1 == c2 && memo_faithful(lines, m1),
            (None, None) => true,
            _ => false,
        },
{
    lemma_callees_faithful(lines, name, memo, CalleeMemo { defined: Seq::empty(), undefined: Seq::empty() });
}

proof fn lemma_grow_faithful(lines: Seq<Seq<char>>, t: CallTree, max: nat, m1: CalleeMemo, m2: CalleeMemo)
    requires
        memo_faithful(lines, m1),
        memo_faithful(lines, m2),
    ensures
        match (grow(lines, t, max, m1), grow(lines, t, max, m2)) {
            (Some((g1, n1)), Some((g2, n2))) => g1 == g2 && memo_faithful(lines, n1)
                && memo_faithful(lines, n2),
            (None, None) => true,
            _ => false,
        },
    decreases max - t.depth, 1nat, 0nat,
{
    lemma_callees_faithful(lines, t.name, m1, m2);
    match (callees_of(lines, t.name, m1), callees_of(lines, t.name, m2)) {
        (Some((names, n1)), Some((_, n2))) => {
            lemma_grow_each_faithful(lines, t.children + leaves(names, t.depth), t.depth, max, n1, n2);
        },
        _ => {},
    }
}

proof fn lemma_grow_each_faithful(
    lines: Seq<Seq<char>>,
    ts: Seq<CallTree>,
    d: nat,
    max: nat,
    m1: CalleeMemo,
    m2: CalleeMemo,
)
    requires
        memo_faithful(lines, m1),
        memo_faithful(lines, m2),
    ensures
        match (grow_each(lines, ts, d, max, m1), grow_each(lines, ts, d, max, m2)) {
            (Some((k1, n1)), Some((k2, n2))) => k1 == k2 && memo_faithful(lines, n1)
                && memo_faithful(lines, n2),
            (None, None) => true,
            _ => false,
        },
    decreases max - d, 0nat, ts.len(),
{
    if ts.len() > 0 {
        lemma_grow_each_faithful(lines, ts.drop_last(), d, max, m1, m2);
        match (grow_each(lines, ts.drop_last(), d, max, m1), grow_each(lines, ts.drop_last(), d, max, m2)) {
            (Some((_, p1)), Some((_, p2))) => {
                if max > d + 1 && ts.last().depth == d + 1 {
                    lemma_grow_faithful(lines, ts.last(), max, p1, p2);
                }
            },
            _ => {},
        }
    }
}

/// What the analyzer remembers only saves work: as long as every
/// remembered lookup agrees with the current source, it never changes the
/// graph, and growing keeps it so. In particular growing with any such
/// memory gives the graph that a fresh analyzer gives.
pub proof fn law_memo_transparent(lines: Seq<Seq<char>>, t: CallTree, max: nat, memo: CalleeMemo)
    requires
        memo_faithful(lines, memo),
    ensures
        match (
            grow(lines, t, max, memo),
            grow(lines, t, max, CalleeMemo { defined: Seq::empty(), undefined: Seq::empty() }),
        ) {
            (Some((g1, n1)), Some((g2, _))) => g1 == g2 && memo_faithful(lines, n1),
            (None, None) => true,
            _ => false,
        },
{
    lemma_grow_faithful(
        lines,
        t,
        max,
        memo,
        CalleeMemo { defined: Seq::empty(), undefined: Seq::empty() },
    );
}

/// What is remembered holds each name at most once: no function is recorded
/// twice as defined or twice as undefined, nor both.
pub open spec fn memo_well_formed(m: CalleeMemo) -> bool {
    &&& distinct_keys(m.defined)
    &&& distinct_names(m.undefined)
    &&& forall|i: int| 0 <= i < m.defined.len() ==> !m.undefined.contains((#[trigger] m.defined[i]).0)
}

proof fn lemma_callees_well_formed(lines: Seq<Seq<char>>, name: Seq<char>, memo: CalleeMemo)
    requires
        memo_well_formed(memo),
    ensures
        callees_of(lines, name, memo) matches Some((_, m)) ==> memo_well_formed(m),
{
    lemma_find_entry_absent(memo.defined, name);
    if !memo.undefined.contains(name) && find_entry(memo.defined, name) is None {
        match first_definition(lines, name, 0) {
            Some(l) => {
                lemma_push_distinct(memo.defined, name, l);
                let n = memo.defined.push((name, l));
                assert forall|i: int| 0 <= i < n.len() implies !memo.undefined.contains(
                    (#[trigger] n[i]).0,
                ) by {
                    if i < memo.defined.len() {
                        assert(n[i] == memo.defined[i]);
                    }
                }
            },
            None => {
                lemma_push_distinct_name(memo.undefined, name);
                let u = memo.undefined.push(name);
                assert forall|i: int| 0 <= i < memo.defined.len() implies !u.contains(
                    (#[trigger] memo.defined[i]).0,
                ) by {
                    assert(!memo.undefined.contains(memo.defined[i].0));
                    if u.contains(memo.defined[i].0) {
                        let k = choose|k: int| 0 <= k < u.len() && u[k] == memo.defined[i].0;
                        if k < memo.undefined.len() {
                            assert(u[k] == memo.undefined[k]);
                        }
                    }
                }
            },
        }
    }
}

proof fn lemma_grow_well_formed(lines: Seq<Seq<char>>, t: CallTree, max: nat, memo: CalleeMemo)
    requires
        memo_well_formed(memo),
    ensures
        grow(lines, t, max, memo) matches Some((_, m)) ==> memo_well_formed(m),
    decreases max - t.depth, 1nat, 0nat,
{
    if max > 0 {
        lemma_callees_well_formed(lines, t.name, memo);
        match callees_of(lines, t.name, memo) {
            Some((names, m1)) => {
                if !(names.len() > 0 && t.depth + 1 > usize::MAX) {
                    lemma_grow_each_well_formed(
                        lines,
                        t.children + leaves(names, t.depth),
                        t.depth,
                        max,
                        m1,
                    );
                }
            },
            None => {},
        }
    }
}

proof fn lemma_grow_each_well_formed(
    lines: Seq<Seq<char>>,
    ts: Seq<CallTree>,
    d: nat,
    max: nat,
    memo: CalleeMemo,
)
    requires
        memo_well_formed(memo),
    ensures
        grow_each(lines, ts, d, max, memo) matches Some((_, m)) ==> memo_well_formed(m),
    decreases max - d, 0nat, ts.len(),
{
    if ts.len() > 0 {
        lemma_grow_each_well_formed(lines, ts.drop_last(), d, max, memo);
        match grow_each(lines, ts.drop_last(), d, max, memo) {
            Some((_, m)) => {
                if max > d + 1 && ts.last().depth == d + 1 {
                    lemma_grow_well_formed(lines, ts.last(), max, m);
                }
            },
            None => {},
        }
    }
}

/// What is remembered holds each name at most once, and growing keeps it so.
pub proof fn law_memo_well_formed(lines: Seq<Seq<char>>, t: CallTree, max: nat, memo: CalleeMemo)
    requires
        memo_well_formed(memo),
    ensures
        grow(lines, t, max, memo) matches Some((_, m)) ==> memo_well_formed(m),
{
    lemma_grow_well_formed(lines, t, max, memo);
}

/// The remembered lookups held by the two tables.
pub open spec fn memo_of(defs: Seq<(String, usize)>, undefined: Seq<String>) -> CalleeMemo {
    CalleeMemo { defined: entries_of(defs), undefined: names_of(undefined) }
}

/// A call-graph analyzer for the functions one function calls.
pub struct Callee {
    fn_hash: Vec<(String, usize)>,
    no_def_fn: Vec<String>,
    pub source: Vec<String>,
    pub root: FunctionNode,
    yaml_file_path: String,
}

impl Callee {
    /// What the analyzer remembers of earlier lookups.
    pub closed spec fn memo(&self) -> CalleeMemo {
        memo_of(self.fn_hash@, self.no_def_fn@)
    }

    /// The path of the output file.
    pub closed spec fn output_path(&self) -> Seq<char> {
        self.yaml_file_path@
    }

    /// The source lines.
    pub closed spec fn lines(&self) -> Seq<Seq<char>> {
        lines_of(self.source@)
    }

    /// The call graph built so far.
    pub closed spec fn graph(&self) -> CallTree {
        self.root.tree()
    }

    /// What `generate_call_graph(depth)` yields: the grown graph and what is
    /// remembered, or `None` where the analysis cannot run to its end.
    pub open spec fn outcome(&self, depth: nat) -> Option<(CallTree, CalleeMemo)> {
        if regex_compiles(call_shape()) && regex_compiles(call_word()) {
            grow(self.lines(), self.graph(), depth, self.memo())
        } else {
            None
        }
    }

    /// An analyzer for the callees of `root_fn_name`, writing to
    /// `output_file_name`, with no source lines yet.
    pub fn new(root_fn_name: String, output_file_name: String) -> (c: Callee)
        ensures
            c.graph() == leaf(root_fn_name@, 0),
            c.lines().len() == 0,
            c.memo() == (CalleeMemo { defined: Seq::empty(), undefined: Seq::empty() }),
            memo_well_formed(c.memo()),
            c.output_path() == output_file_name@,
    {
        let c = Callee {
            fn_hash: Vec::new(),
            no_def_fn: Vec::new(),
            source: Vec::new(),
            root: FunctionNode::new(root_fn_name, 0),
            yaml_file_path: output_file_name,
        };
        assert(c.memo().defined =~= Seq::<(Seq<char>, nat)>::empty());
        assert(c.memo().undefined =~= Seq::<Seq<char>>::empty());
        c
    }

    /// Whether the call graph's text can be written: every node's
    /// indentation fits in `usize`.
    pub fn can_output(&self) -> (r: bool)
        ensures
            r == indent_fits(self.graph(), 0),
    {
        self.root.fits_indentation(0)
    }

    /// Replaces the source lines; the graph and what is remembered stay.
    pub fn set_source(&mut self, source: Vec<String>)
        ensures
            final(self).lines() == lines_of(source@),
            final(self).graph() == old(self).graph(),
            final(self).memo() == old(self).memo(),
            final(self).output_path() == old(self).output_path(),
    {
        self.source = source;
    }

    /// The root of the call graph.
    pub fn root_node(&self) -> (r: &FunctionNode)
        ensures
            r.tree() == self.graph(),
    {
        &self.root
    }

    /// The path of the output file.
    pub fn yaml_file_path(&self) -> (r: String)
        ensures
            r@ == self.output_path(),
    {
        self.yaml_file_path.clone()
    }

    /// What looking `name` up yields: its callees and what is remembered
    /// afterwards, or `None` where the lookup cannot run to its end.
    pub open spec fn lookup(&self, name: Seq<char>) -> Option<(Seq<Seq<char>>, CalleeMemo)> {
        if regex_compiles(call_shape()) && regex_compiles(call_word()) {
            callees_of(self.lines(), name, self.memo())
        } else {
            None
        }
    }

    /// The names of the functions `name` calls, in the order of the calls
    /// in the body of its first definition (none where it has no
    /// definition), remembering that definition's line or that there is
    /// none; where the lookup cannot run to its end, `None`, and nothing
    /// changes. Where what was remembered agrees with the source, the
    /// callees are those a fresh analyzer finds and what is remembered
    /// afterwards agrees with the source too.
    pub fn lookup_callees(&mut self, name: &String) -> (r: Option<Vec<String>>)
        ensures
            match old(self).lookup(name@) {
                Some((cs, m)) => r matches Some(v) && names_of(v@) == cs && final(self).memo()
                    == m,
                None => r is None && final(self).memo() == old(self).memo(),
            },
            memo_faithful(old(self).lines(), old(self).memo()) ==> memo_faithful(
                final(self).lines(),
                final(self).memo(),
            ),
            final(self).lines() == old(self).lines(),
            final(self).graph() == old(self).graph(),
            final(self).output_path() == old(self).output_path(),
    {
        proof {
            if memo_faithful(self.lines(), self.memo()) {
                law_lookup_faithful(self.lines(), name@, self.memo());
            }
        }
        let shape = match Pattern::new(r"\S\(") {
            Ok(p) => p,
            Err(_) => {
                return None;
            },
        };
        let word = match Pattern::new(r"\b[a-zA-Z_][a-zA-Z0-9_]*\(") {
            Ok(p) => p,
            Err(_) => {
                return None;
            },
        };
        let mut defs = clone_entries(&self.fn_hash);
        let mut undefined = clone_names(&self.no_def_fn);
        let r = self.add_callee_fn(name, &mut defs, &mut undefined, &shape, &word);
        if r.is_some() {
            self.fn_hash = defs;
            self.no_def_fn = undefined;
        }
        r
    }

    /// Grows the call graph for the limit `depth` where the analysis can
    /// run to its end (and says so); elsewhere changes nothing and answers
    /// false.
    pub fn try_generate_call_graph(&mut self, depth: usize) -> (r: bool)
        ensures
            r == old(self).outcome(depth as nat) is Some,
            old(self).outcome(depth as nat) matches Some((t, m)) ==> final(self).graph() == t
                && final(self).memo() == m,
            !r ==> final(self).graph() == old(self).graph() && final(self).memo() == old(
                self,
            ).memo(),
            memo_well_formed(old(self).memo()) ==> memo_well_formed(final(self).memo()),
            memo_faithful(old(self).lines(), old(self).memo()) ==> memo_faithful(
                final(self).lines(),
                final(self).memo(),
            ),
            final(self).lines() == old(self).lines(),
            final(self).output_path() == old(self).output_path(),
    {
        proof {
            if memo_well_formed(self.memo()) {
                lemma_grow_well_formed(self.lines(), self.graph(), depth as nat, self.memo());
            }
            if memo_faithful(self.lines(), self.memo()) {
                law_memo_transparent(self.lines(), self.graph(), depth as nat, self.memo());
            }
        }
        let shape = match Pattern::new(r"\S\(") {
            Ok(p) => p,
            Err(_) => {
                return false;
            },
        };
        let word = match Pattern::new(r"\b[a-zA-Z_][a-zA-Z0-9_]*\(") {
            Ok(p) => p,
            Err(_) => {
                return false;
            },
        };
        let mut defs = clone_entries(&self.fn_hash);
        let mut undefined = clone_names(&self.no_def_fn);
        match self.search_c_fn(depth, &self.root, &mut defs, &mut undefined, &shape, &word) {
            Some(g) => {
                self.root = g;
                self.fn_hash = defs;
                self.no_def_fn = undefined;
                true
            },
            None => false,
        }
    }

    /// Grows the call graph for the limit `depth`.
    pub fn generate_call_graph(&mut self, depth: usize)
        requires
            old(self).outcome(depth as nat) is Some,
        ensures
            old(self).outcome(depth as nat) matches Some((t, m)) ==> final(self).graph() == t
                && final(self).memo() == m,
            memo_well_formed(old(self).memo()) ==> memo_well_formed(final(self).memo()),
            memo_faithful(old(self).lines(), old(self).memo()) ==> memo_faithful(
                final(self).lines(),
                final(self).memo(),
            ),
            final(self).lines() == old(self).lines(),
            final(self).output_path() == old(self).output_path(),
    {
        self.try_generate_call_graph(depth);
    }

    /// The text of the call graph, as the output file holds it: a first
    /// line `<callee_graph>`, then the graph.
    pub fn output_yaml(&self) -> (r: String)
        requires
            indent_fits(self.graph(), 0),
        ensures
            r@ == r"<callee_graph>"@.push('\n') + render(self.graph(), 0),
    {
        let mut out: Vec<char> = chars_of(r"<callee_graph>");
        out.push('\n');
        write_node_yaml(&self.root, 0, &mut out);
        string_of(out.as_slice())
    }

    /// Whether the (trimmed) line `line` begins a definition header of `fn_name`.
    fn fn_def_start_condition(&self, fn_name: &String, line: &[char]) -> (r: bool)
        ensures
            r == def_start(fn_name@, line@),
    {
        let mut head = chars_of(fn_name.as_str());
        head.push('(');
        let mut blank_head: Vec<char> = Vec::new();
        blank_head.push(' ');
        let mut star_head: Vec<char> = Vec::new();
        star_head.push('*');
        let mut blank_star_head: Vec<char> = Vec::new();
        blank_star_head.push(' ');
        blank_star_head.push('*');
        let mut k: usize = 0;
        while k < head.len()
            invariant
                0 <= k <= head@.len(),
                blank_head@ == seq![' '] + head@.take(k as int),
                star_head@ == seq!['*'] + head@.take(k as int),
                blank_star_head@ == seq![' ', '*'] + head@.take(k as int),
            decreases head@.len() - k,
        {
            blank_head.push(head[k]);
            star_head.push(head[k]);
            blank_star_head.push(head[k]);
            k = k + 1;
            assert(blank_head@ =~= seq![' '] + head@.take(k as int));
            assert(star_head@ =~= seq!['*'] + head@.take(k as int));
            assert(blank_star_head@ =~= seq![' ', '*'] + head@.take(k as int));
        }
        assert(head@.take(head@.len() as int) =~= head@);
        assert(head@ =~= fn_name@.push('('));
        has_prefix(line, head.as_slice()) || has_infix(line, blank_head.as_slice()) || has_prefix(
            line,
            star_head.as_slice(),
        ) || has_infix(line, blank_star_head.as_slice())
    }

    /// Whether the (trimmed) text `t` is a comment line.
    fn is_comment_text(t: &[char]) -> (r: bool)
        ensures
            r == is_comment(t@),
    {
        let p_line = ['/', '/'];
        let p_open = ['/', '*'];
        let p_star = ['*'];
        let p_close = ['*', '/'];
        assert(p_line@ =~= seq!['/', '/']);
        assert(p_open@ =~= seq!['/', '*']);
        assert(p_star@ =~= seq!['*']);
        assert(p_close@ =~= seq!['*', '/']);
        has_prefix(t, &p_line) || has_prefix(t, &p_open) || has_prefix(t, &p_star) || has_suffix(
            t,
            &p_close,
        )
    }

    /// Whether line `line` is a comment line.
    fn is_comment_line(&self, line: usize) -> (r: bool)
        requires
            line < self.lines().len(),
        ensures
            r == is_comment(trimmed(self.lines()[line as int])),
    {
        let t = trimmed_line(&self.source, line);
        Self::is_comment_text(t.as_slice())
    }

    /// Whether line `index` starts the definition of `fn_name`.
    fn is_function_definition(&self, index: usize, fn_name: &String) -> (r: bool)
        ensures
            r == header_from(self.lines(), fn_name@, index as int, false, false),
    {
        let n = self.source.len();
        let ghost lines = self.lines();
        let mut k: usize = index;
        let mut params = false;
        let mut closed = false;
        let close = [')'];
        let open = ['{'];
        let comma = [','];
        assert(close@ =~= seq![')']);
        assert(open@ =~= seq!['{']);
        assert(comma@ =~= seq![',']);
        loop
            invariant
                n == lines.len(),
                lines == self.lines(),
                index <= k,
                !params ==> !closed,
                close@ == seq![')'],
                open@ == seq!['{'],
                comma@ == seq![','],
                header_from(lines, fn_name@, index as int, false, false) == header_from(
                    lines,
                    fn_name@,
                    k as int,
                    params,
                    closed,
                ),
            decreases n - k,
        {
            if k >= n {
                return false;
            }
            let t = trimmed_line(&self.source, k);
            let t = t.as_slice();
            if !params {
                if self.is_comment_line(k) {
                    return false;
                }
                if !self.fn_def_start_condition(fn_name, t) {
                    return false;
                }
                params = true;
                if has_suffix(t, &close) {
                    closed = true;
                } else if has_char(t, ')') && has_suffix(t, &open) {
                    return true;
                }
            } else if !closed {
                if has_suffix(t, &comma) {
                } else if has_suffix(t, &close) {
                    closed = true;
                } else {
                    return false;
                }
            } else {
                return is_exactly(t, &open);
            }
            k = k + 1;
        }
    }

    /// The first line that starts the definition of `fn_name`, if any.
    fn find_definition(&self, fn_name: &String) -> (r: Option<usize>)
        ensures
            match r {
                Some(k) => first_definition(self.lines(), fn_name@, 0) == Some(k as nat),
                None => first_definition(self.lines(), fn_name@, 0) is None,
            },
    {
        let n = self.source.len();
        let mut i: usize = 0;
        while i < n
            invariant
                0 <= i <= n == self.lines().len(),
                first_definition(self.lines(), fn_name@, 0) == first_definition(
                    self.lines(),
                    fn_name@,
                    i as nat,
                ),
            decreases n - i,
        {
            if self.is_function_definition(i, fn_name) {
                return Some(i);
            }
            i = i + 1;
        }
        None
    }

    /// Whether line `line` may hold calls.
    fn is_fn_call_line(&self, line: usize, shape: &Pattern) -> (r: bool)
        requires
            line < self.lines().len(),
            shape.source() == call_shape(),
        ensures
            r == is_call_line(trimmed(self.lines()[line as int])),
    {
        let t = trimmed_line(&self.source, line);
        if Self::is_comment_text(t.as_slice()) {
            return false;
        }
        let text = string_of(t.as_slice());
        shape.is_match(text.as_str()) && has_char(t.as_slice(), ')')
    }

    /// The functions the (trimmed) line `t` calls, from left to right, given
    /// whether `call_shape` matches in `t` and the texts of the matches of
    /// `call_word` in `t`.
    pub fn calls_from_matches(t: &[char], shape_matches: bool, matches: &Vec<String>) -> (r: Vec<
        String,
    >)
        ensures
            names_of(r@) == calls_given(t@, shape_matches, names_of(matches@)),
    {
        let mut fn_names: Vec<String> = Vec::new();
        if !Self::is_comment_text(t) && shape_matches && has_char(t, ')') {
            let ghost ms = names_of(matches@);
            let mut i: usize = 0;
            while i < matches.len()
                invariant
                    0 <= i <= matches@.len() == ms.len(),
                    ms == names_of(matches@),
                    names_of(fn_names@) == Seq::new(i as nat, |j: int| without_last(ms[j])),
                decreases matches@.len() - i,
            {
                let mut c = chars_of(matches[i].as_str());
                if c.len() > 0 {
                    c.pop();
                }
                assert(c@ == without_last(ms[i as int]));
                let ghost prev = names_of(fn_names@);
                let s = string_of(c.as_slice());
                fn_names.push(s);
                assert(names_of(fn_names@) =~= prev.push(s@));
                i = i + 1;
                assert(names_of(fn_names@) =~= Seq::new(i as nat, |j: int| without_last(ms[j])));
            }
        } else {
            assert(names_of(fn_names@) =~= Seq::<Seq<char>>::empty());
        }
        fn_names
    }

    /// The functions line `line` calls, from left to right.
    fn find_fn_call(&self, line: usize, shape: &Pattern, word: &Pattern) -> (r: Vec<String>)
        requires
            line < self.lines().len(),
            shape.source() == call_shape(),
            word.source() == call_word(),
        ensures
            names_of(r@) == call_names(trimmed(self.lines()[line as int])),
    {
        let t = trimmed_line(&self.source, line);
        let is_call = self.is_fn_call_line(line, shape);
        let matches = if is_call {
            let text = string_of(t.as_slice());
            word.match_texts(text.as_str())
        } else {
            Vec::new()
        };
        proof {
            if is_call {
                assert(names_of(matches@) =~= regex_match_texts(call_word(), t@));
            }
        }
        Self::calls_from_matches(t.as_slice(), is_call, &matches)
    }

    /// The calls in the body of the definition whose first line is `line`.
    fn add_child_node(&self, line: usize, shape: &Pattern, word: &Pattern) -> (r: Option<
        Vec<String>,
    >)
        requires
            shape.source() == call_shape(),
            word.source() == call_word(),
        ensures
            match r {
                Some(v) => calls_at(self.lines(), line as nat) == Some(names_of(v@)),
                None => calls_at(self.lines(), line as nat) is None,
            },
    {
        let n = self.source.len();
        let ghost lines = self.lines();
        let open = ['{'];
        assert(open@ =~= seq!['{']);
        if line >= n {
            assert(body_start(lines, line as nat + 1) is None);
            assert(names_of(Seq::<String>::empty()) =~= Seq::<Seq<char>>::empty());
            return Some(Vec::new());
        }
        let mut cur: usize = line + 1;
        let mut found = false;
        while cur < n
            invariant_except_break
                line + 1 <= cur <= n == lines.len(),
                lines == self.lines(),
                open@ == seq!['{'],
                !found,
                body_start(lines, line as nat + 1) == body_start(lines, cur as nat),
            ensures
                lines == self.lines(),
                n == lines.len(),
                cur <= n,
                found ==> cur < n && body_start(lines, line as nat + 1) == Some(cur as nat),
                !found ==> body_start(lines, line as nat + 1) is None,
            decreases n - cur,
        {
            let t = trimmed_line(&self.source, cur);
            if has_prefix(t.as_slice(), &open) {
                found = true;
                break;
            }
            cur = cur + 1;
        }
        if !found {
            assert(names_of(Seq::<String>::empty()) =~= Seq::<Seq<char>>::empty());
            return Some(Vec::new());
        }
        let start = cur;
        let mut count: usize = 1;
        cur = cur + 1;
        let mut names: Vec<String> = Vec::new();
        assert(names_of(names@) + Seq::<Seq<char>>::empty() =~= Seq::<Seq<char>>::empty());
        while count > 0
            invariant
                lines == self.lines(),
                n == lines.len(),
                start + 1 <= cur <= n,
                shape.source() == call_shape(),
                word.source() == call_word(),
                calls_at(lines, line as nat) == match body_calls(lines, cur as int, count as nat) {
                    Some(rest) => Some(names_of(names@) + rest),
                    None => None,
                },
            decreases n - cur,
        {
            if cur >= n {
                return None;
            }
            let t = trimmed_line(&self.source, cur);
            let ghost c0 = count as nat;
            let closes = count_char(t.as_slice(), '}');
            if closes > count {
                return None;
            }
            count = count - closes;
            let opens = count_char(t.as_slice(), '{');
            if opens > usize::MAX - count {
                return None;
            }
            count = count + opens;
            let ghost before = names_of(names@);
            let found_names = self.find_fn_call(cur, shape, word);
            let mut j: usize = 0;
            while j < found_names.len()
                invariant
                    0 <= j <= found_names@.len(),
                    names_of(names@) == before + names_of(found_names@).take(j as int),
                decreases found_names@.len() - j,
            {
                let ghost prev = names_of(names@);
                let s = found_names[j].clone();
                assert(s@ == names_of(found_names@)[j as int]);
                names.push(s);
                assert(names_of(names@) =~= prev.push(s@));
                assert(names_of(found_names@).take(j + 1) =~= names_of(found_names@).take(
                    j as int,
                ).push(s@));
                j = j + 1;
                assert(names_of(names@) =~= before + names_of(found_names@).take(j as int));
            }
            assert(names_of(found_names@).take(found_names@.len() as int) =~= names_of(
                found_names@,
            ));
            proof {
                match body_calls(lines, cur + 1, count as nat) {
                    Some(rest) => {
                        assert(before + (call_names(t@) + rest) =~= names_of(names@) + rest);
                    },
                    None => {},
                }
            }
            cur = cur + 1;
        }
        assert(names_of(names@) + Seq::<Seq<char>>::empty() =~= names_of(names@));
        Some(names)
    }

    /// The functions `fn_name` calls, remembering a newly found definition
    /// line, or that the function is not defined.
    fn add_callee_fn(
        &self,
        fn_name: &String,
        defs: &mut Vec<(String, usize)>,
        undefined: &mut Vec<String>,
        shape: &Pattern,
        word: &Pattern,
    ) -> (r: Option<Vec<String>>)
        requires
            shape.source() == call_shape(),
            word.source() == call_word(),
        ensures
            match callees_of(self.lines(), fn_name@, memo_of(old(defs)@, old(undefined)@)) {
                Some((cs, m)) => r matches Some(v) && names_of(v@) == cs && memo_of(
                    final(defs)@,
                    final(undefined)@,
                ) == m,
                None => r is None,
            },
    {
        if holds_name(undefined, fn_name) {
            assert(names_of(Seq::<String>::empty()) =~= Seq::<Seq<char>>::empty());
            return Some(Vec::new());
        }
        match lookup(defs, fn_name) {
            Some(line) => self.add_child_node(line, shape, word),
            None => match self.find_definition(fn_name) {
                None => {
                    let ghost before = names_of(undefined@);
                    undefined.push(fn_name.clone());
                    assert(names_of(undefined@) =~= before.push(fn_name@));
                    assert(names_of(Seq::<String>::empty()) =~= Seq::<Seq<char>>::empty());
                    Some(Vec::new())
                },
                Some(line) => {
                    let ghost before = entries_of(defs@);
                    defs.push((fn_name.clone(), line));
                    assert(entries_of(defs@) =~= before.push((fn_name@, line as nat)));
                    self.add_child_node(line, shape, word)
                },
            },
        }
    }

    /// The graph below `node` grown for the limit `depth`.
    fn search_c_fn(
        &self,
        depth: usize,
        node: &FunctionNode,
        defs: &mut Vec<(String, usize)>,
        undefined: &mut Vec<String>,
        shape: &Pattern,
        word: &Pattern,
    ) -> (r: Option<FunctionNode>)
        requires
            shape.source() == call_shape(),
            word.source() == call_word(),
        ensures
            match grow(
                self.lines(),
                node.tree(),
                depth as nat,
                memo_of(old(defs)@, old(undefined)@),
            ) {
                Some((t, m)) => r matches Some(g) && g.tree() == t && memo_of(
                    final(defs)@,
                    final(undefined)@,
                ) == m,
                None => r is None,
            },
        decreases depth - node.tree().depth,
    {
        if depth == 0 {
            return Some(node.duplicate());
        }
        let d = node.curr_depth();
        let ghost t = node.tree();
        let ghost lines = self.lines();
        let ghost m0 = memo_of(defs@, undefined@);
        let name = node.name();
        let names = match self.add_callee_fn(&name, defs, undefined, shape, word) {
            Some(v) => v,
            None => {
                return None;
            },
        };
        if names.len() > 0 && d == usize::MAX {
            return None;
        }
        let ghost kids = t.children + leaves(names_of(names@), t.depth);
        let ghost m1 = memo_of(defs@, undefined@);
        let old_count = node.num_children();
        let mut grown: Vec<FunctionNode> = Vec::new();
        assert(kids.take(0) =~= Seq::<CallTree>::empty());
        assert(trees_of(grown@) =~= Seq::<CallTree>::empty());
        while grown.len() < old_count || grown.len() - old_count < names.len()
            invariant
                t == node.tree(),
                lines == self.lines(),
                d == t.depth,
                shape.source() == call_shape(),
                word.source() == call_word(),
                callees_of(lines, t.name, m0) == Some((names_of(names@), m1)),
                !(names@.len() > 0 && t.depth + 1 > usize::MAX),
                m0 == memo_of(old(defs)@, old(undefined)@),
                old_count == t.children.len(),
                kids == t.children + leaves(names_of(names@), t.depth),
                grown@.len() <= kids.len(),
                forall|j: int| 0 <= j < grown@.len() ==> #[trigger] grown@[j].tree().depth == d + 1,
                grow_each(lines, kids.take(grown@.len() as int), d as nat, depth as nat, m1)
                    == Some((trees_of(grown@), memo_of(defs@, undefined@))),
            decreases kids.len() - grown@.len(),
        {
            let i = grown.len();
            let next = if i < old_count {
                node.child_depth_step(i);
                node.child(i).duplicate()
            } else {
                FunctionNode::new(names[i - old_count].clone(), d + 1)
            };
            assert(next.tree() == kids[i as int]);
            assert(kids.take(i + 1).drop_last() =~= kids.take(i as int));
            assert(kids.take(i + 1).last() == kids[i as int]);
            if d < depth && depth - d > 1 {
                match self.search_c_fn(depth, &next, defs, undefined, shape, word) {
                    Some(g) => {
                        let ghost prev = grown@;
                        grown.push(g);
                        assert(trees_of(grown@) =~= trees_of(prev).push(g.tree()));
                    },
                    None => {
                        proof {
                            lemma_grow_each_prefix_fails(
                                lines,
                                kids,
                                d as nat,
                                depth as nat,
                                m1,
                                i + 1,
                            );
                        }
                        return None;
                    },
                }
            } else {
                let ghost prev = grown@;
                grown.push(next);
                assert(trees_of(grown@) =~= trees_of(prev).push(kids[i as int]));
            }
        }
        assert(kids.take(kids.len() as int) =~= kids);
        let g = FunctionNode::with_calls(name, d, grown);
        Some(g)
    }
}

} // verus!
