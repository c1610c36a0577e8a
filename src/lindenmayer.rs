use crate::char_map::Rules;
use crate::chars::{chars_of, push_char, string_of};
use vstd::prelude::*;
use vstd::string::StringExecFns;

verus! {

/// Why a rewrite or a decomposition could not be carried out.
#[derive(Debug, Clone, Copy, PartialEq, Eq, Structural)]
pub enum LindenmayerError {
    /// `symbol`, at character index `position`, is neither a constant nor has a rule.
    UndefinedSymbol { symbol: char, position: usize },
    /// The brackets do not pair up; `position` is the character index of a
    /// `]` that closes nothing, or the input's length when a `[` is left open.
    MalformedBracketStructure { position: usize },
}

// ---------------------------------------------------------------------------
// Rewriting
// ---------------------------------------------------------------------------

/// `c` can be rewritten: it is a constant or it has a rule.
pub open spec fn is_defined(c: char, constants: Seq<char>, rules: Map<char, Seq<char>>) -> bool {
    constants.contains(c) || rules.contains_key(c)
}

/// What one symbol becomes in one generation.
pub open spec fn image(c: char, constants: Seq<char>, rules: Map<char, Seq<char>>) -> Seq<char> {
    if constants.contains(c) {
        seq![c]
    } else {
        rules[c]
    }
}

/// One generation of rewriting: the images of the symbols of `s`, concatenated in order.
pub open spec fn expand(s: Seq<char>, constants: Seq<char>, rules: Map<char, Seq<char>>) -> Seq<
    char,
>
    decreases s.len(),
{
    if s.len() == 0 {
        Seq::empty()
    } else {
        expand(s.drop_last(), constants, rules) + image(s.last(), constants, rules)
    }
}

/// Every symbol of `s` can be rewritten.
pub open spec fn all_defined(s: Seq<char>, constants: Seq<char>, rules: Map<char, Seq<char>>) -> bool {
    forall|i: int| 0 <= i < s.len() ==> is_defined(#[trigger] s[i], constants, rules)
}

fn is_constant(c: char, constants: &[char]) -> (r: bool)
    ensures
        r == constants@.contains(c),
{
    let mut i: usize = 0;
    while i < constants.len()
        invariant
            i <= constants.len(),
            forall|j: int| 0 <= j < i ==> constants@[j] != c,
        decreases constants.len() - i,
    {
        if constants[i] == c {
            return true;
        }
        i = i + 1;
    }
    false
}

/// Applies one generation of `rules` to `start`: each constant is copied, each
/// other symbol is replaced by its rule. Fails on the first symbol that is
/// neither.
pub fn progress(start: &str, constants: &[char], rules: &Rules) -> (r: Result<
    String,
    LindenmayerError,
>)
    requires
        rules.wf(),
    ensures
        match r {
            Ok(out) => all_defined(start@, constants@, rules@) && out@ == expand(
                start@,
                constants@,
                rules@,
            ),
            Err(LindenmayerError::UndefinedSymbol { symbol, position }) => {
                &&& position < start@.len()
                &&& symbol == start@[position as int]
                &&& !is_defined(symbol, constants@, rules@)
                &&& all_defined(start@.subrange(0, position as int), constants@, rules@)
            },
            Err(_) => false,
        },
{
    let s = chars_of(start);
    let mut out = String::new();
    let mut i: usize = 0;
    while i < s.len()
        invariant
            s@ == start@,
            rules.wf(),
            i <= s.len(),
            all_defined(s@.subrange(0, i as int), constants@, rules@),
            out@ == expand(s@.subrange(0, i as int), constants@, rules@),
        decreases s.len() - i,
    {
        let c = s[i];
        let ghost before = out@;
        if is_constant(c, constants) {
            push_char(&mut out, c);
            assert(out@ == before + seq![c]);
        } else {
            match rules.get(c) {
                Some(rep) => {
                    out.append(rep.as_str());
                },
                None => {
                    return Err(LindenmayerError::UndefinedSymbol { symbol: c, position: i });
                },
            }
        }
        proof {
            let next = s@.subrange(0, i + 1);
            assert(next.drop_last() =~= s@.subrange(0, i as int));
            assert(next.last() == c);
            assert forall|j: int| 0 <= j < next.len() implies is_defined(
                #[trigger] next[j],
                constants@,
                rules@,
            ) by {
                if j < i {
                    assert(next[j] == s@.subrange(0, i as int)[j]);
                }
            }
        }
        i = i + 1;
    }
    assert(s@.subrange(0, s.len() as int) =~= s@);
    Ok(out)
}

/// `s` after `n` generations of rewriting.
pub open spec fn expand_n(s: Seq<char>, constants: Seq<char>, rules: Map<char, Seq<char>>, n: nat) -> Seq<
    char,
>
    decreases n,
{
    if n == 0 {
        s
    } else {
        expand(expand_n(s, constants, rules, (n - 1) as nat), constants, rules)
    }
}

/// Generations `0` up to `n - 1` of `s` can all be rewritten.
pub open spec fn defined_through(
    s: Seq<char>,
    constants: Seq<char>,
    rules: Map<char, Seq<char>>,
    n: nat,
) -> bool {
    forall|k: nat| k < n ==> all_defined(#[trigger] expand_n(s, constants, rules, k), constants, rules)
}

/// Applies `progress` `generations` times, each output feeding the next
/// generation. Fails in the first generation that meets an undefined symbol,
/// with that symbol and its position in that generation's input.
pub fn expand_generations(start: &str, constants: &[char], rules: &Rules, generations: u32) -> (r:
    Result<String, LindenmayerError>)
    requires
        rules.wf(),
    ensures
        match r {
            Ok(out) => {
                &&& defined_through(start@, constants@, rules@, generations as nat)
                &&& out@ == expand_n(start@, constants@, rules@, generations as nat)
            },
            Err(LindenmayerError::UndefinedSymbol { symbol, position }) => exists|k: nat|
                {
                    let g = #[trigger] expand_n(start@, constants@, rules@, k);
                    &&& k < generations
                    &&& defined_through(start@, constants@, rules@, k)
                    &&& position < g.len()
                    &&& symbol == g[position as int]
                    &&& !is_defined(symbol, constants@, rules@)
                    &&& all_defined(g.subrange(0, position as int), constants@, rules@)
                },
            Err(_) => false,
        },
{
    let mut cur = String::from_str(start);
    let mut n: u32 = 0;
    while n < generations
        invariant
            rules.wf(),
            n <= generations,
            defined_through(start@, constants@, rules@, n as nat),
            cur@ == expand_n(start@, constants@, rules@, n as nat),
        decreases generations - n,
    {
        match progress(cur.as_str(), constants, rules) {
            Ok(next) => {
                proof {
                    assert forall|k: nat| k < n + 1 implies all_defined(
                        #[trigger] expand_n(start@, constants@, rules@, k),
                        constants@,
                        rules@,
                    ) by {
                        if k < n {
                        }
                    }
                }
                cur = next;
            },
            Err(e) => {
                proof {
                    let g = expand_n(start@, constants@, rules@, n as nat);
                    assert(g == cur@);
                }
                return Err(e);
            },
        }
        n = n + 1;
    }
    Ok(cur)
}

/// The strokes of `start` after `generations` generations of rewriting: what
/// the geometry layer draws for one L-system.
pub fn generation_strokes(start: &str, constants: &[char], rules: &Rules, generations: u32) -> (r:
    Result<Vec<String>, LindenmayerError>)
    requires
        rules.wf(),
    ensures
        ({
            let g = expand_n(start@, constants@, rules@, generations as nat);
            match r {
                Ok(v) => {
                    &&& defined_through(start@, constants@, rules@, generations as nat)
                    &&& balanced(g)
                    &&& decompose(g) == Some(views(v@))
                },
                Err(LindenmayerError::UndefinedSymbol { .. }) => !defined_through(
                    start@,
                    constants@,
                    rules@,
                    generations as nat,
                ),
                Err(LindenmayerError::MalformedBracketStructure { .. }) => {
                    &&& defined_through(start@, constants@, rules@, generations as nat)
                    &&& !balanced(g)
                },
            }
        }),
{
    let last = expand_generations(start, constants, rules, generations)?;
    separate_stack_strings(last.as_str())
}

// ---------------------------------------------------------------------------
// Branch decomposition
// ---------------------------------------------------------------------------

/// How a symbol changes the bracket nesting depth.
pub open spec fn step(c: char) -> int {
    if c == '[' {
        1
    } else if c == ']' {
        -1
    } else {
        0
    }
}

/// The nesting depth after reading all of `s`: opening minus closing brackets.
pub open spec fn depth(s: Seq<char>) -> int
    decreases s.len(),
{
    if s.len() == 0 {
        0
    } else {
        depth(s.drop_last()) + step(s.last())
    }
}

/// The brackets of `s` pair up: no prefix closes more than it opened, and the
/// whole string closes all it opened.
pub open spec fn balanced(s: Seq<char>) -> bool {
    &&& forall|i: int| 0 <= i <= s.len() ==> depth(#[trigger] s.subrange(0, i)) >= 0
    &&& depth(s) == 0
}

/// The `]` at index `p` of `s` closes no open `[`.
pub open spec fn closes_nothing(s: Seq<char>, p: int) -> bool {
    &&& 0 <= p < s.len()
    &&& s[p] == ']'
    &&& depth(s.subrange(0, p)) == 0
}

/// The index of the first `]` in `s` at or after `i`, or the length of `s`.
pub open spec fn first_close_from(s: Seq<char>, i: int) -> int
    decreases s.len() - i,
{
    if i < 0 || i >= s.len() {
        s.len() as int
    } else if s[i] == ']' {
        i
    } else {
        first_close_from(s, i + 1)
    }
}

/// The index of the last `[` in `s` before index `e`, or -1.
pub open spec fn last_open_before(s: Seq<char>, e: int) -> int
    decreases e,
{
    if e <= 0 {
        -1
    } else if s[e - 1] == '[' {
        e - 1
    } else {
        last_open_before(s, e - 1)
    }
}

/// `s` with every `[` removed.
pub open spec fn strip_opens(s: Seq<char>) -> Seq<char>
    decreases s.len(),
{
    if s.len() == 0 {
        s
    } else if s.last() == '[' {
        strip_opens(s.drop_last())
    } else {
        strip_opens(s.drop_last()).push(s.last())
    }
}

/// `s` with the span from index `o` to index `e`, both included, cut out.
pub open spec fn cut(s: Seq<char>, o: int, e: int) -> Seq<char> {
    s.subrange(0, o) + s.subrange(e + 1, s.len() as int)
}

/// The strokes of `s`, innermost branch first. Take the first `]` and the
/// nearest `[` before it; the first stroke is everything before that `]`
/// without its `[` markers, and the rest are the strokes of `s` with the
/// bracketed span cut out. A string without `]` is a single stroke. `None`
/// where a `]` has no `[` before it or a `[` is never closed.
pub open spec fn decompose(s: Seq<char>) -> Option<Seq<Seq<char>>>
    decreases s.len(),
{
    let e = first_close_from(s, 0);
    if e >= s.len() {
        if s.contains('[') {
            None
        } else {
            Some(seq![s])
        }
    } else {
        let o = last_open_before(s, e);
        if 0 <= o < e && e < s.len() {
            match decompose(cut(s, o, e)) {
                Some(rest) => Some(seq![strip_opens(s.subrange(0, e))] + rest),
                None => None,
            }
        } else {
            None
        }
    }
}

/// The views of a sequence of strings.
pub open spec fn views(v: Seq<String>) -> Seq<Seq<char>> {
    v.map_values(|x: String| x@)
}

proof fn lemma_first_close(s: Seq<char>, i: int, e: int)
    requires
        0 <= i <= e <= s.len(),
        forall|k: int| i <= k < e ==> s[k] != ']',
        e == s.len() || s[e] == ']',
    ensures
        first_close_from(s, i) == e,
    decreases e - i,
{
    if i < e {
        lemma_first_close(s, i + 1, e);
    }
}

proof fn lemma_last_open(s: Seq<char>, o: int, e: int)
    requires
        -1 <= o < e <= s.len(),
        forall|k: int| o < k < e ==> s[k] != '[',
        o == -1 || s[o] == '[',
    ensures
        last_open_before(s, e) == o,
    decreases e - o,
{
    if o < e - 1 {
        lemma_last_open(s, o, e - 1);
    }
}

pub(crate) proof fn lemma_first_close_bounds(s: Seq<char>, i: int)
    requires
        0 <= i <= s.len(),
    ensures
        i <= first_close_from(s, i) <= s.len(),
        first_close_from(s, i) < s.len() ==> s[first_close_from(s, i)] == ']',
        forall|k: int| i <= k < first_close_from(s, i) ==> s[k] != ']',
    decreases s.len() - i,
{
    if i < s.len() && s[i] != ']' {
        lemma_first_close_bounds(s, i + 1);
    }
}

pub(crate) proof fn lemma_last_open_bounds(s: Seq<char>, e: int)
    requires
        0 <= e <= s.len(),
    ensures
        -1 <= last_open_before(s, e) < e,
        last_open_before(s, e) >= 0 ==> s[last_open_before(s, e)] == '[',
        forall|k: int| last_open_before(s, e) < k < e ==> s[k] != '[',
    decreases e,
{
    if e > 0 && s[e - 1] != '[' {
        lemma_last_open_bounds(s, e - 1);
    }
}

proof fn lemma_depth_concat(a: Seq<char>, b: Seq<char>)
    ensures
        depth(a + b) == depth(a) + depth(b),
    decreases b.len(),
{
    if b.len() > 0 {
        assert((a + b).drop_last() =~= a + b.drop_last());
        lemma_depth_concat(a, b.drop_last());
    }
}

/// Without `]`, the depth counts the `[` markers.
proof fn lemma_depth_no_close(s: Seq<char>)
    requires
        !s.contains(']'),
    ensures
        depth(s) >= 0,
        s.contains('[') ==> depth(s) >= 1,
        !s.contains('[') ==> depth(s) == 0,
    decreases s.len(),
{
    if s.len() > 0 {
        let t = s.drop_last();
        assert(!t.contains(']')) by {
            if t.contains(']') {
                let k = choose|k: int| 0 <= k < t.len() && t[k] == ']';
                assert(s[k] == ']');
            }
        }
        lemma_depth_no_close(t);
        if t.contains('[') {
            let k = choose|k: int| 0 <= k < t.len() && t[k] == '[';
            assert(s[k] == '[');
        }
        if s.contains('[') && !t.contains('[') {
            let k = choose|k: int| 0 <= k < s.len() && s[k] == '[';
            if k < t.len() {
                assert(t[k] == '[');
            }
        }
        assert(s.last() != ']') by {
            assert(s[s.len() - 1] == s.last());
        }
    }
}

/// Cutting a matched `[ ... ]` span with no brackets inside keeps a string balanced.
proof fn lemma_cut_balanced(s: Seq<char>, o: int, e: int)
    requires
        balanced(s),
        0 <= o < e < s.len(),
        s[o] == '[',
        s[e] == ']',
        forall|k: int| o < k < e ==> s[k] != '[' && s[k] != ']',
    ensures
        balanced(cut(s, o, e)),
{
    let r = cut(s, o, e);
    let w = e + 1 - o;
    let inner = s.subrange(o + 1, e);
    assert(!inner.contains(']') && !inner.contains('[')) by {
        if inner.contains(']') || inner.contains('[') {
            let k = choose|k: int| 0 <= k < inner.len() && (inner[k] == ']' || inner[k] == '[');
            assert(s[o + 1 + k] == inner[k]);
        }
    }
    lemma_depth_no_close(inner);
    let m = s.subrange(o, e + 1);
    assert(m =~= seq!['['] + inner + seq![']']);
    lemma_depth_concat(seq!['['] + inner, seq![']']);
    lemma_depth_concat(seq!['['], inner);
    assert(seq!['['].drop_last() =~= Seq::<char>::empty());
    assert(seq![']'].drop_last() =~= Seq::<char>::empty());
    assert(depth(Seq::<char>::empty()) == 0);
    assert(seq!['['].last() == '[');
    assert(seq![']'].last() == ']');
    assert(depth(seq!['[']) == 1);
    assert(depth(seq![']']) == -1);
    assert(depth(m) == 0);
    assert forall|i: int| 0 <= i <= r.len() implies depth(#[trigger] r.subrange(0, i)) >= 0
        && (i == r.len() ==> depth(r.subrange(0, i)) == depth(s)) by {
        if i < o {
            assert(r.subrange(0, i) =~= s.subrange(0, i));
        } else {
            let tail = s.subrange(e + 1, i + w);
            assert(r.subrange(0, i) =~= s.subrange(0, o) + tail);
            assert(s.subrange(0, i + w) =~= s.subrange(0, o) + m + tail);
            lemma_depth_concat(s.subrange(0, o), tail);
            lemma_depth_concat(s.subrange(0, o) + m, tail);
            lemma_depth_concat(s.subrange(0, o), m);
            assert(0 <= i + w <= s.len());
            assert(depth(s.subrange(0, i + w)) >= 0);
            assert(depth(r.subrange(0, i)) == depth(s.subrange(0, i + w)));
            if i == r.len() {
                assert(s.subrange(0, i + w) =~= s);
            }
        }
    }
    assert(r.subrange(0, r.len() as int) =~= r);
}

/// A balanced string always decomposes.
pub proof fn lemma_balanced_decomposes(s: Seq<char>)
    requires
        balanced(s),
    ensures
        decompose(s) is Some,
    decreases s.len(),
{
    let e = first_close_from(s, 0);
    lemma_first_close_bounds(s, 0);
    if e >= s.len() {
        assert(!s.contains(']'));
        lemma_depth_no_close(s);
    } else {
        let o = last_open_before(s, e);
        lemma_last_open_bounds(s, e);
        let pre = s.subrange(0, e);
        if o < 0 {
            assert(!pre.contains(']') && !pre.contains('[')) by {
                if pre.contains(']') || pre.contains('[') {
                    let k = choose|k: int| 0 <= k < pre.len() && (pre[k] == ']' || pre[k] == '[');
                    assert(s[k] == pre[k]);
                }
            }
            lemma_depth_no_close(pre);
            assert(s.subrange(0, e + 1).drop_last() =~= pre);
            assert(depth(s.subrange(0, e + 1)) >= 0);
        } else {
            lemma_cut_balanced(s, o, e);
            lemma_balanced_decomposes(cut(s, o, e));
        }
    }
}

/// The index of the first `]` of `s` that closes nothing, or, where every `]`
/// closes something, `None` exactly when `s` is balanced.
fn find_unmatched(s: &Vec<char>) -> (r: Option<usize>)
    ensures
        match r {
            None => balanced(s@),
            Some(p) => {
                &&& !balanced(s@)
                &&& p <= s@.len()
                &&& forall|q: int| 0 <= q < p ==> !closes_nothing(s@, q)
                &&& p < s@.len() ==> closes_nothing(s@, p as int)
            },
        },
{
    let mut d: usize = 0;
    let mut i: usize = 0;
    assert(s@.subrange(0, 0) =~= Seq::<char>::empty());
    while i < s.len()
        invariant
            i <= s.len(),
            d <= i,
            d == depth(s@.subrange(0, i as int)),
            forall|j: int| 0 <= j <= i ==> depth(#[trigger] s@.subrange(0, j)) >= 0,
            forall|q: int| 0 <= q < i ==> !closes_nothing(s@, q),
        decreases s.len() - i,
    {
        let c = s[i];
        let ghost next = s@.subrange(0, i + 1);
        assert(next.drop_last() =~= s@.subrange(0, i as int));
        if c == ']' {
            if d == 0 {
                assert(depth(next) < 0);
                return Some(i);
            }
            d = d - 1;
        } else if c == '[' {
            d = d + 1;
        }
        i = i + 1;
    }
    assert(s@.subrange(0, s.len() as int) =~= s@);
    if d > 0 {
        Some(s.len())
    } else {
        None
    }
}

/// The index of the first `]` of `s`, or its length.
fn first_close(s: &Vec<char>) -> (e: usize)
    ensures
        e == first_close_from(s@, 0),
{
    let mut i: usize = 0;
    while i < s.len() && s[i] != ']'
        invariant
            i <= s.len(),
            forall|k: int| 0 <= k < i ==> s@[k] != ']',
        decreases s.len() - i,
    {
        i = i + 1;
    }
    proof {
        lemma_first_close(s@, 0, i as int);
    }
    i
}

/// The index of the last `[` of `s` before index `e`, if there is one.
fn last_open(s: &Vec<char>, e: usize) -> (o: Option<usize>)
    requires
        e <= s.len(),
    ensures
        match o {
            Some(o) => o == last_open_before(s@, e as int),
            None => last_open_before(s@, e as int) == -1,
        },
{
    let mut k: usize = e;
    while k > 0
        invariant
            k <= e <= s.len(),
            forall|j: int| k <= j < e ==> s@[j] != '[',
        decreases k,
    {
        if s[k - 1] == '[' {
            proof {
                lemma_last_open(s@, k - 1, e as int);
            }
            return Some(k - 1);
        }
        k = k - 1;
    }
    proof {
        lemma_last_open(s@, -1, e as int);
    }
    None
}

/// The first `e` characters of `s`, without `[` markers.
fn strip_prefix(s: &Vec<char>, e: usize) -> (r: String)
    requires
        e <= s.len(),
    ensures
        r@ == strip_opens(s@.subrange(0, e as int)),
{
    let mut r = String::new();
    let mut i: usize = 0;
    assert(s@.subrange(0, 0) =~= Seq::<char>::empty());
    while i < e
        invariant
            i <= e <= s.len(),
            r@ == strip_opens(s@.subrange(0, i as int)),
        decreases e - i,
    {
        assert(s@.subrange(0, i + 1).drop_last() =~= s@.subrange(0, i as int));
        if s[i] != '[' {
            push_char(&mut r, s[i]);
        }
        i = i + 1;
    }
    r
}

/// `s` with the span from index `o` to index `e`, both included, cut out.
fn cut_span(s: &Vec<char>, o: usize, e: usize) -> (r: Vec<char>)
    requires
        o < e < s.len(),
    ensures
        r@ == cut(s@, o as int, e as int),
{
    let mut r: Vec<char> = Vec::new();
    let mut i: usize = 0;
    while i < o
        invariant
            i <= o < e < s.len(),
            r@ == s@.subrange(0, i as int),
        decreases o - i,
    {
        r.push(s[i]);
        assert(r@ =~= s@.subrange(0, i + 1));
        i = i + 1;
    }
    let mut j: usize = e + 1;
    while j < s.len()
        invariant
            o < e < j <= s.len(),
            r@ == s@.subrange(0, o as int) + s@.subrange(e + 1, j as int),
        decreases s.len() - j,
    {
        r.push(s[j]);
        assert(r@ =~= s@.subrange(0, o as int) + s@.subrange(e + 1, j + 1));
        j = j + 1;
    }
    r
}

/// Splits `input` into its strokes, innermost branch first; fails where its
/// brackets do not pair up.
pub fn separate_stack_strings(input: &str) -> (r: Result<Vec<String>, LindenmayerError>)
    ensures
        match r {
            Ok(v) => balanced(input@) && decompose(input@) == Some(views(v@)),
            Err(LindenmayerError::MalformedBracketStructure { position }) => {
                &&& !balanced(input@)
                &&& position <= input@.len()
                &&& forall|q: int| 0 <= q < position ==> !closes_nothing(input@, q)
                &&& position < input@.len() ==> closes_nothing(input@, position as int)
            },
            Err(_) => false,
        },
{
    let s = chars_of(input);
    match find_unmatched(&s) {
        Some(p) => {
            return Err(LindenmayerError::MalformedBracketStructure { position: p });
        },
        None => {},
    }
    proof {
        lemma_balanced_decomposes(s@);
        assert(views(Seq::<String>::empty()) + decompose(s@)->0 =~= decompose(s@)->0);
    }
    let mut cur = s;
    let mut out: Vec<String> = Vec::new();
    loop
        invariant_except_break
            decompose(cur@) is Some,
            decompose(input@) == Some(views(out@) + decompose(cur@)->0),
        invariant
            balanced(input@),
        ensures
            decompose(input@) == Some(views(out@)),
        decreases cur.len(),
    {
        let e = first_close(&cur);
        if e >= cur.len() {
            let ghost before = out@;
            out.push(string_of(&cur));
            assert(views(out@) =~= views(before) + seq![cur@]);
            break;
        }
        match last_open(&cur, e) {
            Some(o) => {
                let ghost before = out@;
                let ghost c = cur@;
                out.push(strip_prefix(&cur, e));
                cur = cut_span(&cur, o, e);
                assert(views(out@) =~= views(before) + seq![strip_opens(c.subrange(0, e as int))]);
                assert(views(out@) + decompose(cur@)->0 =~= views(before) + decompose(c)->0);
            },
            None => {
                // A `]` with nothing open before it; `decompose(cur@) is Some`
                // shows that this arm is never taken.
                return Err(LindenmayerError::MalformedBracketStructure { position: e });
            },
        }
    }
    Ok(out)
}

} // verus!
