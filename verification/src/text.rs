//! Character-level text operations on source lines, each with its
//! mathematical definition over `Seq<char>`.
use vstd::prelude::*;

verus! {

/// Whether `c` has the Unicode `White_Space` property, the set of characters
/// that `str::trim` and `str::split_whitespace` treat as blanks.
pub open spec fn white_space(c: char) -> bool {
    let x = c as int;
    ||| 0x09 <= x <= 0x0d
    ||| x == 0x20
    ||| x == 0x85
    ||| x == 0xa0
    ||| x == 0x1680
    ||| 0x2000 <= x <= 0x200a
    ||| x == 0x2028
    ||| x == 0x2029
    ||| x == 0x202f
    ||| x == 0x205f
    ||| x == 0x3000
}

/// `s` without its leading blanks.
pub open spec fn trimmed_start(s: Seq<char>) -> Seq<char>
    decreases s.len(),
{
    if s.len() > 0 && white_space(s[0]) {
        trimmed_start(s.drop_first())
    } else {
        s
    }
}

/// `s` without its trailing blanks.
pub open spec fn trimmed_end(s: Seq<char>) -> Seq<char>
    decreases s.len(),
{
    if s.len() > 0 && white_space(s.last()) {
        trimmed_end(s.drop_last())
    } else {
        s
    }
}

/// `s` without its leading and trailing blanks (what `str::trim` gives).
pub open spec fn trimmed(s: Seq<char>) -> Seq<char> {
    trimmed_end(trimmed_start(s))
}

/// `s` begins with `p`.
pub open spec fn starts_with(s: Seq<char>, p: Seq<char>) -> bool {
    p.len() <= s.len() && s.subrange(0, p.len() as int) == p
}

/// `s` ends with `p`.
pub open spec fn ends_with(s: Seq<char>, p: Seq<char>) -> bool {
    p.len() <= s.len() && s.subrange(s.len() - p.len(), s.len() as int) == p
}

/// `p` occurs in `s` at position `i`.
pub open spec fn occurs_at(s: Seq<char>, p: Seq<char>, i: int) -> bool {
    0 <= i && i + p.len() <= s.len() && s.subrange(i, i + p.len()) == p
}

/// `p` occurs somewhere in `s`.
pub open spec fn contains(s: Seq<char>, p: Seq<char>) -> bool {
    exists|i: int| occurs_at(s, p, i)
}

/// The number of times the character `c` occurs in `s`.
pub open spec fn occurrences(s: Seq<char>, c: char) -> nat
    decreases s.len(),
{
    if s.len() == 0 {
        0
    } else {
        occurrences(s.drop_last(), c) + if s.last() == c {
            1nat
        } else {
            0nat
        }
    }
}

/// The blank-free characters at the very end of `s`.
pub open spec fn trailing_word(s: Seq<char>) -> Seq<char>
    decreases s.len(),
{
    if s.len() == 0 || white_space(s.last()) {
        Seq::empty()
    } else {
        trailing_word(s.drop_last()).push(s.last())
    }
}

/// The last blank-separated word of `s`, if `s` holds any.
pub open spec fn last_word(s: Seq<char>) -> Option<Seq<char>>
    decreases s.len(),
{
    if s.len() == 0 {
        None
    } else if white_space(s.last()) {
        last_word(s.drop_last())
    } else {
        Some(trailing_word(s))
    }
}

/// The character of the decimal digit `d`.
pub open spec fn digit(d: nat) -> char {
    ((d + 48) as u8) as char
}

/// The decimal notation of `n`, without leading zeros.
pub open spec fn decimal(n: nat) -> Seq<char>
    decreases n,
{
    if n < 10 {
        seq![digit(n)]
    } else {
        decimal(n / 10).push(digit(n % 10))
    }
}

/// `n` blanks.
pub open spec fn blanks(n: nat) -> Seq<char> {
    Seq::new(n, |i: int| ' ')
}

/// The characters of a string.
pub fn chars_of(s: &str) -> (r: Vec<char>)
    ensures
        r@ == s@,
{
    let mut r: Vec<char> = Vec::new();
    for c in it: s.chars()
        invariant
            r@ == it.seq().take(it.index() as int),
    {
        r.push(c);
    }
    r
}

/// The string of a sequence of characters.
#[verifier::external_body]
pub(crate) fn string_of(v: &[char]) -> (r: String)
    ensures
        r@ == v@,
{
    v.iter().collect()
}

/// Whether `c` is a blank (Unicode `White_Space`).
pub fn is_white_space(c: char) -> (b: bool)
    ensures
        b == white_space(c),
{
    let x = c as u32;
    (0x09 <= x && x <= 0x0d) || x == 0x20 || x == 0x85 || x == 0xa0 || x == 0x1680 || (0x2000
        <= x && x <= 0x200a) || x == 0x2028 || x == 0x2029 || x == 0x202f || x == 0x205f || x
        == 0x3000
}

/// The characters `s[from..to]`.
pub fn slice_chars(s: &[char], from: usize, to: usize) -> (r: Vec<char>)
    requires
        from <= to <= s@.len(),
    ensures
        r@ == s@.subrange(from as int, to as int),
{
    let mut r: Vec<char> = Vec::new();
    let mut k: usize = from;
    while k < to
        invariant
            from <= k <= to <= s@.len(),
            r@ == s@.subrange(from as int, k as int),
        decreases to - k,
    {
        r.push(s[k]);
        k = k + 1;
        assert(r@ =~= s@.subrange(from as int, k as int));
    }
    r
}

proof fn lemma_trimmed_start_step(s: Seq<char>, i: int)
    requires
        0 <= i < s.len(),
        white_space(s[i]),
    ensures
        trimmed_start(s.subrange(i, s.len() as int)) == trimmed_start(
            s.subrange(i + 1, s.len() as int),
        ),
{
    assert(s.subrange(i, s.len() as int).drop_first() =~= s.subrange(i + 1, s.len() as int));
}

proof fn lemma_trimmed_end_step(s: Seq<char>, i: int, j: int)
    requires
        0 <= i < j <= s.len(),
        white_space(s[j - 1]),
    ensures
        trimmed_end(s.subrange(i, j)) == trimmed_end(s.subrange(i, j - 1)),
{
    assert(s.subrange(i, j).drop_last() =~= s.subrange(i, j - 1));
}

/// `s` without its leading and trailing blanks.
pub fn trim(s: &[char]) -> (r: Vec<char>)
    ensures
        r@ == trimmed(s@),
{
    let n = s.len();
    let mut i: usize = 0;
    assert(s@.subrange(0, n as int) =~= s@);
    while i < n && is_white_space(s[i])
        invariant
            0 <= i <= n == s@.len(),
            trimmed_start(s@) == trimmed_start(s@.subrange(i as int, n as int)),
        decreases n - i,
    {
        proof {
            lemma_trimmed_start_step(s@, i as int);
        }
        i = i + 1;
    }
    assert(trimmed_start(s@) == s@.subrange(i as int, n as int));
    let mut j: usize = n;
    while j > i && is_white_space(s[j - 1])
        invariant
            i <= j <= n == s@.len(),
            trimmed_end(s@.subrange(i as int, n as int)) == trimmed_end(
                s@.subrange(i as int, j as int),
            ),
        decreases j,
    {
        proof {
            lemma_trimmed_end_step(s@, i as int, j as int);
        }
        j = j - 1;
    }
    slice_chars(s, i, j)
}

/// Whether `p` occurs in `s` at position `i`.
pub fn occurs_at_pos(s: &[char], p: &[char], i: usize) -> (b: bool)
    ensures
        b == occurs_at(s@, p@, i as int),
{
    if i > s.len() || p.len() > s.len() - i {
        return false;
    }
    let n = s.len();
    let mut k: usize = 0;
    while k < p.len()
        invariant
            n == s@.len(),
            i + p@.len() <= s@.len(),
            0 <= k <= p@.len(),
            forall|m: int| 0 <= m < k ==> s@[i + m] == p@[m],
        decreases p.len() - k,
    {
        assert(i + k < s@.len());
        if s[i + k] != p[k] {
            assert(s@.subrange(i as int, i + p@.len())[k as int] != p@[k as int]);
            return false;
        }
        k = k + 1;
    }
    assert(s@.subrange(i as int, i + p@.len()) =~= p@);
    true
}

/// Whether `s` begins with `p`.
pub fn has_prefix(s: &[char], p: &[char]) -> (b: bool)
    ensures
        b == starts_with(s@, p@),
{
    occurs_at_pos(s, p, 0)
}

/// Whether `s` ends with `p`.
pub fn has_suffix(s: &[char], p: &[char]) -> (b: bool)
    ensures
        b == ends_with(s@, p@),
{
    if p.len() > s.len() {
        false
    } else {
        occurs_at_pos(s, p, s.len() - p.len())
    }
}

/// Whether `p` occurs somewhere in `s`.
pub fn has_infix(s: &[char], p: &[char]) -> (b: bool)
    ensures
        b == contains(s@, p@),
{
    if p.len() > s.len() {
        return false;
    }
    let last = s.len() - p.len();
    let mut i: usize = 0;
    loop
        invariant
            last + p@.len() == s@.len(),
            0 <= i <= last,
            forall|m: int| 0 <= m < i ==> !occurs_at(s@, p@, m),
        decreases last - i,
    {
        if occurs_at_pos(s, p, i) {
            return true;
        }
        if i == last {
            return false;
        }
        i = i + 1;
    }
}

/// Whether the character `c` occurs in `s`.
pub fn has_char(s: &[char], c: char) -> (b: bool)
    ensures
        b == contains(s@, seq![c]),
{
    let p = [c];
    assert(p@ =~= seq![c]);
    has_infix(s, &p)
}

proof fn lemma_occurrences_prefix(s: Seq<char>, c: char, k: int)
    requires
        0 <= k < s.len(),
    ensures
        occurrences(s.subrange(0, k + 1), c) == occurrences(s.subrange(0, k), c) + if s[k]
            == c {
            1nat
        } else {
            0nat
        },
{
    assert(s.subrange(0, k + 1).drop_last() =~= s.subrange(0, k));
}

/// The number of times `c` occurs in `s`.
pub fn count_char(s: &[char], c: char) -> (r: usize)
    ensures
        r == occurrences(s@, c),
{
    let mut r: usize = 0;
    let mut k: usize = 0;
    while k < s.len()
        invariant
            0 <= k <= s@.len(),
            r == occurrences(s@.subrange(0, k as int), c),
            r <= k,
        decreases s.len() - k,
    {
        proof {
            lemma_occurrences_prefix(s@, c, k as int);
        }
        if s[k] == c {
            r = r + 1;
        }
        k = k + 1;
    }
    assert(s@.subrange(0, s@.len() as int) =~= s@);
    r
}

/// Appends the decimal notation of `n` to `out`.
pub fn push_decimal(n: usize, out: &mut Vec<char>)
    ensures
        final(out)@ == old(out)@ + decimal(n as nat),
    decreases n,
{
    if n >= 10 {
        push_decimal(n / 10, out);
    }
    let d: u8 = (n % 10) as u8;
    let c: char = (d + 48) as char;
    out.push(c);
}

/// Appends `n` blanks to `out`.
pub fn push_blanks(n: usize, out: &mut Vec<char>)
    ensures
        final(out)@ == old(out)@ + blanks(n as nat),
{
    let ghost start = out@;
    let mut k: usize = 0;
    while k < n
        invariant
            0 <= k <= n,
            out@ == start + blanks(k as nat),
        decreases n - k,
    {
        out.push(' ');
        k = k + 1;
        assert(out@ =~= start + blanks(k as nat));
    }
}

/// Appends the characters of `s` to `out`.
pub fn push_all(s: &[char], out: &mut Vec<char>)
    ensures
        final(out)@ == old(out)@ + s@,
{
    let ghost start = out@;
    let mut k: usize = 0;
    while k < s.len()
        invariant
            0 <= k <= s@.len(),
            out@ == start + s@.subrange(0, k as int),
        decreases s.len() - k,
    {
        out.push(s[k]);
        k = k + 1;
        assert(out@ =~= start + s@.subrange(0, k as int));
    }
    assert(s@.subrange(0, s@.len() as int) =~= s@);
}

/// `s` up to (not including) the first `c`; all of `s` where `c` does not occur.
pub open spec fn prefix_before(s: Seq<char>, c: char) -> Seq<char>
    decreases s.len(),
{
    if s.len() == 0 {
        s
    } else if s[0] == c {
        Seq::empty()
    } else {
        seq![s[0]] + prefix_before(s.drop_first(), c)
    }
}

/// Whether `s` is exactly `p`.
pub fn is_exactly(s: &[char], p: &[char]) -> (b: bool)
    ensures
        b == (s@ == p@),
{
    if s.len() != p.len() {
        return false;
    }
    let r = has_prefix(s, p);
    proof {
        if r {
            assert(s@ =~= s@.subrange(0, p@.len() as int));
        } else {
            assert(s@.subrange(0, p@.len() as int) =~= s@);
        }
    }
    r
}

/// `s` up to (not including) the first `c`.
pub fn take_until(s: &[char], c: char) -> (r: Vec<char>)
    ensures
        r@ == prefix_before(s@, c),
{
    let n = s.len();
    let mut k: usize = 0;
    assert(s@.subrange(0, 0) + prefix_before(s@.subrange(0, n as int), c) =~= prefix_before(s@, c))
        by {
        assert(s@.subrange(0, n as int) =~= s@);
    }
    while k < n && s[k] != c
        invariant
            0 <= k <= n == s@.len(),
            prefix_before(s@, c) == s@.subrange(0, k as int) + prefix_before(
                s@.subrange(k as int, n as int),
                c,
            ),
        decreases n - k,
    {
        proof {
            let rest = s@.subrange(k as int, n as int);
            assert(rest.drop_first() =~= s@.subrange(k + 1, n as int));
            assert(s@.subrange(0, k as int) + seq![s@[k as int]] =~= s@.subrange(0, k + 1));
        }
        k = k + 1;
    }
    proof {
        let rest = s@.subrange(k as int, n as int);
        if k < n {
            assert(rest[0] == c);
        }
        assert(s@.subrange(0, k as int) + Seq::<char>::empty() =~= s@.subrange(0, k as int));
    }
    slice_chars(s, 0, k)
}

proof fn lemma_last_word_strip(s: Seq<char>, j: int)
    requires
        0 < j <= s.len(),
        white_space(s[j - 1]),
    ensures
        last_word(s.subrange(0, j)) == last_word(s.subrange(0, j - 1)),
{
    assert(s.subrange(0, j).drop_last() =~= s.subrange(0, j - 1));
}

proof fn lemma_trailing_word_step(s: Seq<char>, i: int)
    requires
        0 < i <= s.len(),
        !white_space(s[i - 1]),
    ensures
        trailing_word(s.subrange(0, i)) == trailing_word(s.subrange(0, i - 1)).push(s[i - 1]),
{
    assert(s.subrange(0, i).drop_last() =~= s.subrange(0, i - 1));
}

/// The last blank-separated word of `s`, if any.
pub fn find_last_word(s: &[char]) -> (r: Option<Vec<char>>)
    ensures
        match r {
            Some(w) => last_word(s@) == Some(w@),
            None => last_word(s@) is None,
        },
{
    let n = s.len();
    assert(s@.subrange(0, n as int) =~= s@);
    let mut j: usize = n;
    while j > 0 && is_white_space(s[j - 1])
        invariant
            0 <= j <= n == s@.len(),
            last_word(s@) == last_word(s@.subrange(0, j as int)),
        decreases j,
    {
        proof {
            lemma_last_word_strip(s@, j as int);
        }
        j = j - 1;
    }
    if j == 0 {
        return None;
    }
    let mut i: usize = j;
    assert(s@.subrange(i as int, j as int) =~= Seq::<char>::empty());
    while i > 0 && !is_white_space(s[i - 1])
        invariant
            0 <= i <= j <= n == s@.len(),
            trailing_word(s@.subrange(0, j as int)) == trailing_word(s@.subrange(0, i as int))
                + s@.subrange(i as int, j as int),
        decreases i,
    {
        proof {
            lemma_trailing_word_step(s@, i as int);
            assert(trailing_word(s@.subrange(0, i - 1)).push(s@[i - 1]) + s@.subrange(
                i as int,
                j as int,
            ) =~= trailing_word(s@.subrange(0, i - 1)) + s@.subrange(i - 1, j as int));
        }
        i = i - 1;
    }
    proof {
        let t = s@.subrange(0, i as int);
        assert(trailing_word(t) == Seq::<char>::empty());
        assert(Seq::<char>::empty() + s@.subrange(i as int, j as int) =~= s@.subrange(
            i as int,
            j as int,
        ));
        assert(s@.subrange(0, j as int).last() == s@[j - 1]);
    }
    Some(slice_chars(s, i, j))
}

/// The part before the first `c`: `prefix_before(s, c)` is a prefix of `s`
/// holding no `c`, followed in `s` by a `c` where it is shorter than `s`.
pub proof fn law_prefix_before(s: Seq<char>, c: char)
    ensures
        prefix_before(s, c).len() <= s.len(),
        prefix_before(s, c) == s.subrange(0, prefix_before(s, c).len() as int),
        forall|i: int| 0 <= i < prefix_before(s, c).len() ==> #[trigger] prefix_before(s, c)[i] != c,
        prefix_before(s, c).len() < s.len() ==> s[prefix_before(s, c).len() as int] == c,
    decreases s.len(),
{
    if s.len() > 0 && s[0] != c {
        let t = s.drop_first();
        law_prefix_before(t, c);
        let p = prefix_before(s, c);
        assert(p == seq![s[0]] + prefix_before(t, c));
        assert(p =~= s.subrange(0, p.len() as int));
        assert forall|i: int| 0 <= i < p.len() implies #[trigger] p[i] != c by {
            if i > 0 {
                assert(p[i] == prefix_before(t, c)[i - 1]);
            }
        }
        if p.len() < s.len() {
            assert(s[p.len() as int] == t[prefix_before(t, c).len() as int]);
        }
    }
}

proof fn lemma_trimmed_start_shape(s: Seq<char>)
    ensures
        trimmed_start(s).len() <= s.len(),
        trimmed_start(s) == s.subrange(s.len() - trimmed_start(s).len(), s.len() as int),
        forall|i: int| 0 <= i < s.len() - trimmed_start(s).len() ==> white_space(#[trigger] s[i]),
        trimmed_start(s).len() > 0 ==> !white_space(trimmed_start(s)[0]),
    decreases s.len(),
{
    if s.len() > 0 && white_space(s[0]) {
        let t = s.drop_first();
        lemma_trimmed_start_shape(t);
        assert(t.subrange(t.len() - trimmed_start(t).len(), t.len() as int) =~= s.subrange(
            s.len() - trimmed_start(t).len(),
            s.len() as int,
        ));
        assert forall|i: int| 0 <= i < s.len() - trimmed_start(s).len() implies white_space(
            #[trigger] s[i],
        ) by {
            if i > 0 {
                assert(s[i] == t[i - 1]);
            }
        }
    } else {
        assert(s.subrange(0, s.len() as int) =~= s);
    }
}

proof fn lemma_trimmed_end_shape(s: Seq<char>)
    ensures
        trimmed_end(s).len() <= s.len(),
        trimmed_end(s) == s.subrange(0, trimmed_end(s).len() as int),
        forall|i: int| trimmed_end(s).len() <= i < s.len() ==> white_space(#[trigger] s[i]),
        trimmed_end(s).len() > 0 ==> !white_space(trimmed_end(s).last()),
    decreases s.len(),
{
    if s.len() > 0 && white_space(s.last()) {
        let t = s.drop_last();
        lemma_trimmed_end_shape(t);
        assert(t.subrange(0, trimmed_end(t).len() as int) =~= s.subrange(
            0,
            trimmed_end(t).len() as int,
        ));
        assert forall|i: int| trimmed_end(s).len() <= i < s.len() implies white_space(
            #[trigger] s[i],
        ) by {
            if i < s.len() - 1 {
                assert(s[i] == t[i]);
            }
        }
    } else {
        assert(s.subrange(0, s.len() as int) =~= s);
    }
}

/// What trimming keeps: `trimmed(s)` is the piece of `s` between a run of
/// leading blanks and a run of trailing blanks, and it neither begins nor
/// ends with a blank.
pub proof fn law_trimmed(s: Seq<char>)
    ensures
        exists|a: int, b: int|
            #![trigger s.subrange(a, b)]
            {
                &&& 0 <= a <= b <= s.len()
                &&& trimmed(s) == s.subrange(a, b)
                &&& forall|i: int| 0 <= i < a ==> white_space(#[trigger] s[i])
                &&& forall|i: int| b <= i < s.len() ==> white_space(#[trigger] s[i])
            },
        trimmed(s).len() > 0 ==> !white_space(trimmed(s)[0]) && !white_space(trimmed(s).last()),
{
    let u = trimmed_start(s);
    lemma_trimmed_start_shape(s);
    lemma_trimmed_end_shape(u);
    let a = s.len() - u.len();
    let e = trimmed_end(u);
    let b = a + e.len();
    assert(s.subrange(a, b) =~= e) by {
        assert forall|i: int| 0 <= i < e.len() implies s.subrange(a, b)[i] == e[i] by {
            assert(e[i] == u.subrange(0, e.len() as int)[i]);
            assert(u[i] == s.subrange(a, s.len() as int)[i]);
        }
    }
    assert forall|i: int| b <= i < s.len() implies white_space(#[trigger] s[i]) by {
        assert(s[i] == u[i - a]) by {
            assert(u[i - a] == s.subrange(a, s.len() as int)[i - a]);
        }
    }
    if e.len() > 0 {
        assert(e[0] == u[0]) by {
            assert(e[0] == u.subrange(0, e.len() as int)[0]);
        }
    }
}

proof fn lemma_trailing_word_shape(s: Seq<char>)
    ensures
        trailing_word(s).len() <= s.len(),
        trailing_word(s) == s.subrange(s.len() - trailing_word(s).len(), s.len() as int),
        forall|i: int| 0 <= i < trailing_word(s).len() ==> !white_space(#[trigger] trailing_word(s)[i]),
        trailing_word(s).len() < s.len() ==> white_space(s[s.len() - trailing_word(s).len() - 1]),
    decreases s.len(),
{
    if s.len() > 0 && !white_space(s.last()) {
        let t = s.drop_last();
        lemma_trailing_word_shape(t);
        let w = trailing_word(s);
        assert(w == trailing_word(t).push(s.last()));
        assert(w =~= s.subrange(s.len() - w.len(), s.len() as int)) by {
            assert forall|k: int| 0 <= k < w.len() implies w[k] == s.subrange(
                s.len() - w.len(),
                s.len() as int,
            )[k] by {
                if k < w.len() - 1 {
                    assert(w[k] == trailing_word(t)[k]);
                    assert(trailing_word(t)[k] == t.subrange(
                        t.len() - trailing_word(t).len(),
                        t.len() as int,
                    )[k]);
                }
            }
        }
        assert forall|k: int| 0 <= k < w.len() implies !white_space(#[trigger] w[k]) by {
            if k < w.len() - 1 {
                assert(w[k] == trailing_word(t)[k]);
            }
        }
        if w.len() < s.len() {
            assert(s[s.len() - w.len() - 1] == t[t.len() - trailing_word(t).len() - 1]);
        }
    }
}

/// The last word: `last_word(s)` is `None` exactly when `s` is all blanks;
/// else it is a non-empty run of non-blanks in `s` that has a blank or the
/// start of `s` before it and only blanks after it.
pub proof fn law_last_word(s: Seq<char>)
    ensures
        last_word(s) is None <==> forall|i: int| 0 <= i < s.len() ==> white_space(#[trigger] s[i]),
        last_word(s) matches Some(w) ==> {
            &&& w.len() > 0
            &&& forall|k: int| 0 <= k < w.len() ==> !white_space(#[trigger] w[k])
            &&& exists|j: int|
                #![trigger s.subrange(j - w.len(), j)]
                {
                    &&& w.len() <= j <= s.len()
                    &&& s.subrange(j - w.len(), j) == w
                    &&& (j == w.len() || white_space(s[j - w.len() - 1]))
                    &&& forall|i: int| j <= i < s.len() ==> white_space(#[trigger] s[i])
                }
        },
    decreases s.len(),
{
    if s.len() > 0 {
        let t = s.drop_last();
        if white_space(s.last()) {
            law_last_word(t);
            assert forall|i: int| 0 <= i < s.len() - 1 implies s[i] == t[i] by {}
            if forall|i: int| 0 <= i < t.len() ==> white_space(#[trigger] t[i]) {
                assert forall|i: int| 0 <= i < s.len() implies white_space(#[trigger] s[i]) by {
                    if i < s.len() - 1 {
                        assert(s[i] == t[i]);
                    }
                }
            }
            if forall|i: int| 0 <= i < s.len() ==> white_space(#[trigger] s[i]) {
                assert forall|i: int| 0 <= i < t.len() implies white_space(#[trigger] t[i]) by {
                    assert(s[i] == t[i]);
                }
            }
            match last_word(t) {
                Some(w) => {
                    let j = choose|j: int|
                        #![trigger t.subrange(j - w.len(), j)]
                        {
                            &&& w.len() <= j <= t.len()
                            &&& t.subrange(j - w.len(), j) == w
                            &&& (j == w.len() || white_space(t[j - w.len() - 1]))
                            &&& forall|i: int| j <= i < t.len() ==> white_space(#[trigger] t[i])
                        };
                    assert(s.subrange(j - w.len(), j) =~= t.subrange(j - w.len(), j));
                    assert forall|i: int| j <= i < s.len() implies white_space(#[trigger] s[i]) by {
                        if i < s.len() - 1 {
                            assert(s[i] == t[i]);
                        }
                    }
                    if j != w.len() {
                        assert(s[j - w.len() - 1] == t[j - w.len() - 1]);
                    }
                },
                None => {},
            }
        } else {
            lemma_trailing_word_shape(s);
            let w = trailing_word(s);
            assert(w.len() > 0) by {
                assert(w == trailing_word(t).push(s.last()));
            }
            let j = s.len() as int;
            assert(s.subrange(j - w.len(), j) == w);
            assert(!white_space(s[s.len() - 1]));
        }
    }
}

} // verus!
