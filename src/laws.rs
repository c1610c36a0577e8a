use crate::lindenmayer::{
    all_defined, balanced, cut, decompose, defined_through, depth, expand, expand_n,
    first_close_from, image, is_defined, last_open_before, lemma_balanced_decomposes,
    lemma_first_close_bounds, lemma_last_open_bounds, strip_opens,
};
use vstd::multiset::Multiset;
use vstd::prelude::*;

verus! {

// ---------------------------------------------------------------------------
// Rewriting
// ---------------------------------------------------------------------------

/// Every symbol of every replacement is a constant or has a rule of its own.
pub open spec fn closed_alphabet(constants: Seq<char>, rules: Map<char, Seq<char>>) -> bool {
    forall|k: char, i: int|
        #![trigger rules[k][i]]
        rules.contains_key(k) && 0 <= i < rules[k].len() ==> is_defined(rules[k][i], constants, rules)
}

proof fn lemma_all_defined_concat(
    a: Seq<char>,
    b: Seq<char>,
    constants: Seq<char>,
    rules: Map<char, Seq<char>>,
)
    requires
        all_defined(a, constants, rules),
        all_defined(b, constants, rules),
    ensures
        all_defined(a + b, constants, rules),
{
    assert forall|i: int| 0 <= i < (a + b).len() implies is_defined(
        #[trigger] (a + b)[i],
        constants,
        rules,
    ) by {
        if i >= a.len() {
            assert((a + b)[i] == b[i - a.len()]);
        }
    }
}

/// Over a closed alphabet, rewriting a string whose symbols are all defined
/// gives a string whose symbols are all defined again, so any number of
/// generations can be taken without an undefined symbol.
pub proof fn lemma_closed_alphabet_stays_defined(
    s: Seq<char>,
    constants: Seq<char>,
    rules: Map<char, Seq<char>>,
)
    requires
        closed_alphabet(constants, rules),
        all_defined(s, constants, rules),
    ensures
        all_defined(expand(s, constants, rules), constants, rules),
    decreases s.len(),
{
    if s.len() > 0 {
        let t = s.drop_last();
        assert forall|i: int| 0 <= i < t.len() implies is_defined(
            #[trigger] t[i],
            constants,
            rules,
        ) by {
            assert(t[i] == s[i]);
        }
        lemma_closed_alphabet_stays_defined(t, constants, rules);
        let c = s.last();
        assert(is_defined(s[s.len() - 1], constants, rules));
        let img = image(c, constants, rules);
        assert forall|i: int| 0 <= i < img.len() implies is_defined(
            #[trigger] img[i],
            constants,
            rules,
        ) by {
            if !constants.contains(c) {
                assert(img[i] == rules[c][i]);
            }
        }
        lemma_all_defined_concat(expand(t, constants, rules), img, constants, rules);
    }
}

/// Over a closed alphabet, a start string whose symbols are all defined can be
/// rewritten for any number of generations: no generation meets an undefined
/// symbol.
pub proof fn lemma_closed_alphabet_generations(
    s: Seq<char>,
    constants: Seq<char>,
    rules: Map<char, Seq<char>>,
    n: nat,
)
    requires
        closed_alphabet(constants, rules),
        all_defined(s, constants, rules),
    ensures
        defined_through(s, constants, rules, n),
    decreases n,
{
    if n > 0 {
        let m = (n - 1) as nat;
        lemma_closed_alphabet_generations(s, constants, rules, m);
        if m > 0 {
            lemma_closed_alphabet_stays_defined(
                expand_n(s, constants, rules, (m - 1) as nat),
                constants,
                rules,
            );
        }
        assert forall|k: nat| k < n implies all_defined(
            #[trigger] expand_n(s, constants, rules, k),
            constants,
            rules,
        ) by {
            if k == m {
                if m > 0 {
                    assert(k < m + 1);
                }
            }
        }
    }
}

/// A symbol that is neither a constant nor has a rule leaves no expansion:
/// any string holding it is not fully defined.
pub proof fn lemma_undefined_symbol_blocks(
    s: Seq<char>,
    constants: Seq<char>,
    rules: Map<char, Seq<char>>,
    i: int,
)
    requires
        0 <= i < s.len(),
        !constants.contains(s[i]),
        !rules.contains_key(s[i]),
    ensures
        !all_defined(s, constants, rules),
{
}

/// The length each symbol contributes to one generation: one for a constant,
/// the length of its replacement otherwise.
pub open spec fn image_len(c: char, constants: Seq<char>, rules: Map<char, Seq<char>>) -> int {
    if constants.contains(c) {
        1
    } else {
        rules[c].len() as int
    }
}

/// The sum of `image_len` over the symbols of `s`.
pub open spec fn expanded_len(s: Seq<char>, constants: Seq<char>, rules: Map<char, Seq<char>>) -> int
    decreases s.len(),
{
    if s.len() == 0 {
        0
    } else {
        expanded_len(s.drop_last(), constants, rules) + image_len(s.last(), constants, rules)
    }
}

/// The length of one generation is fixed by the rules and constants: each
/// constant counts one, each other symbol the length of its replacement.
pub proof fn lemma_expand_len(s: Seq<char>, constants: Seq<char>, rules: Map<char, Seq<char>>)
    ensures
        expand(s, constants, rules).len() == expanded_len(s, constants, rules),
    decreases s.len(),
{
    if s.len() > 0 {
        lemma_expand_len(s.drop_last(), constants, rules);
    }
}

// ---------------------------------------------------------------------------
// Decomposition
// ---------------------------------------------------------------------------

/// How many times `c` occurs in `s`.
pub open spec fn count_of(s: Seq<char>, c: char) -> int
    decreases s.len(),
{
    if s.len() == 0 {
        0
    } else {
        count_of(s.drop_last(), c) + if s.last() == c {
            1int
        } else {
            0int
        }
    }
}

proof fn lemma_count_concat(a: Seq<char>, b: Seq<char>, c: char)
    ensures
        count_of(a + b, c) == count_of(a, c) + count_of(b, c),
    decreases b.len(),
{
    if b.len() > 0 {
        assert((a + b).drop_last() =~= a + b.drop_last());
        lemma_count_concat(a, b.drop_last(), c);
    }
}

proof fn lemma_count_absent(s: Seq<char>, c: char)
    requires
        !s.contains(c),
    ensures
        count_of(s, c) == 0,
    decreases s.len(),
{
    if s.len() > 0 {
        let t = s.drop_last();
        assert(!t.contains(c)) by {
            if t.contains(c) {
                let k = choose|k: int| 0 <= k < t.len() && t[k] == c;
                assert(s[k] == c);
            }
        }
        lemma_count_absent(t, c);
        assert(s[s.len() - 1] == s.last());
    }
}

proof fn lemma_depth_counts(s: Seq<char>)
    ensures
        depth(s) == count_of(s, '[') - count_of(s, ']'),
    decreases s.len(),
{
    if s.len() > 0 {
        lemma_depth_counts(s.drop_last());
    }
}

/// The facts about one reduction step of `decompose`: where the span lies,
/// and that only its ends are brackets.
proof fn lemma_step(s: Seq<char>)
    requires
        decompose(s) is Some,
        first_close_from(s, 0) < s.len(),
    ensures
        ({
            let e = first_close_from(s, 0);
            let o = last_open_before(s, e);
            &&& 0 <= o < e < s.len()
            &&& s[o] == '['
            &&& s[e] == ']'
            &&& forall|k: int| o < k < e ==> s[k] != '[' && s[k] != ']'
            &&& forall|k: int| 0 <= k < e ==> s[k] != ']'
            &&& decompose(cut(s, o, e)) is Some
            &&& decompose(s)->0 == seq![strip_opens(s.subrange(0, e))] + decompose(
                cut(s, o, e),
            )->0
        }),
{
    lemma_first_close_bounds(s, 0);
    lemma_last_open_bounds(s, first_close_from(s, 0));
}

/// Counts of `c` across a cut: the span's own occurrences are removed.
proof fn lemma_count_cut(s: Seq<char>, o: int, e: int, c: char)
    requires
        0 <= o < e < s.len(),
    ensures
        count_of(s, c) == count_of(cut(s, o, e), c) + count_of(s.subrange(o, e + 1), c),
{
    let a = s.subrange(0, o);
    let m = s.subrange(o, e + 1);
    let b = s.subrange(e + 1, s.len() as int);
    assert(s =~= a + m + b);
    lemma_count_concat(a + m, b, c);
    lemma_count_concat(a, m, c);
    lemma_count_concat(a, b, c);
}

/// Counts of `c` in a span `[ ... ]` whose inside holds no brackets.
proof fn lemma_count_span(s: Seq<char>, o: int, e: int, c: char)
    requires
        0 <= o < e < s.len(),
        s[o] == '[',
        s[e] == ']',
        forall|k: int| o < k < e ==> s[k] != '[' && s[k] != ']',
        c == '[' || c == ']',
    ensures
        count_of(s.subrange(o, e + 1), c) == 1,
{
    let inner = s.subrange(o + 1, e);
    assert(!inner.contains(c)) by {
        if inner.contains(c) {
            let k = choose|k: int| 0 <= k < inner.len() && inner[k] == c;
            assert(s[o + 1 + k] == inner[k]);
        }
    }
    lemma_count_absent(inner, c);
    assert(s.subrange(o, e + 1) =~= seq!['['] + inner + seq![']']);
    lemma_count_concat(seq!['['] + inner, seq![']'], c);
    lemma_count_concat(seq!['['], inner, c);
    assert(seq!['['].drop_last() =~= Seq::<char>::empty());
    assert(seq![']'].drop_last() =~= Seq::<char>::empty());
    assert(count_of(Seq::<char>::empty(), c) == 0);
    assert(seq!['['].last() == '[');
    assert(seq![']'].last() == ']');
}

proof fn lemma_decompose_counts(s: Seq<char>)
    requires
        decompose(s) is Some,
    ensures
        decompose(s)->0.len() == 1 + count_of(s, '['),
        count_of(s, '[') == count_of(s, ']'),
    decreases s.len(),
{
    let e = first_close_from(s, 0);
    lemma_first_close_bounds(s, 0);
    if e >= s.len() {
        assert(!s.contains(']'));
        lemma_count_absent(s, '[');
        lemma_count_absent(s, ']');
    } else {
        lemma_step(s);
        let o = last_open_before(s, e);
        lemma_decompose_counts(cut(s, o, e));
        lemma_count_cut(s, o, e, '[');
        lemma_count_cut(s, o, e, ']');
        lemma_count_span(s, o, e, '[');
        lemma_count_span(s, o, e, ']');
    }
}

/// A balanced string yields one stroke more than it has `[` markers.
pub proof fn lemma_stroke_count(s: Seq<char>)
    requires
        balanced(s),
    ensures
        decompose(s) is Some,
        decompose(s)->0.len() == 1 + count_of(s, '['),
{
    lemma_balanced_decomposes(s);
    lemma_decompose_counts(s);
}

/// On a balanced string, `decompose` takes one reduction for each bracket
/// pair and then stops: it yields exactly half the number of brackets plus one
/// strokes, one per step.
pub proof fn lemma_reduction_steps(s: Seq<char>)
    requires
        balanced(s),
    ensures
        decompose(s) is Some,
        decompose(s)->0.len() == (count_of(s, '[') + count_of(s, ']')) / 2 + 1,
{
    lemma_balanced_decomposes(s);
    lemma_decompose_counts(s);
    lemma_depth_counts(s);
}

/// `c` is a branch marker.
pub open spec fn is_bracket(c: char) -> bool {
    c == '[' || c == ']'
}

/// The multiset of the symbols of `s` that are not branch markers.
pub open spec fn symbols(s: Seq<char>) -> Multiset<char>
    decreases s.len(),
{
    if s.len() == 0 {
        Multiset::empty()
    } else if is_bracket(s.last()) {
        symbols(s.drop_last())
    } else {
        symbols(s.drop_last()).insert(s.last())
    }
}

/// The symbols of all the strokes of `v` together.
pub open spec fn stroke_symbols(v: Seq<Seq<char>>) -> Multiset<char>
    decreases v.len(),
{
    if v.len() == 0 {
        Multiset::empty()
    } else {
        symbols(v[0]).add(stroke_symbols(v.drop_first()))
    }
}

/// Only branch markers stand before the last `[` of `s`.
pub open spec fn no_symbol_before_open(s: Seq<char>) -> bool {
    forall|i: int, j: int|
        #![trigger s[i], s[j]]
        0 <= i < j < s.len() && s[j] == '[' ==> is_bracket(s[i])
}

proof fn lemma_symbols_concat(a: Seq<char>, b: Seq<char>)
    ensures
        symbols(a + b) =~= symbols(a).add(symbols(b)),
    decreases b.len(),
{
    if b.len() > 0 {
        assert((a + b).drop_last() =~= a + b.drop_last());
        assert((a + b).last() == b.last());
        lemma_symbols_concat(a, b.drop_last());
    } else {
        assert(a + b =~= a);
    }
}

proof fn lemma_symbols_strip(s: Seq<char>)
    ensures
        symbols(strip_opens(s)) =~= symbols(s),
    decreases s.len(),
{
    if s.len() > 0 {
        lemma_symbols_strip(s.drop_last());
        if s.last() != '[' {
            let t = strip_opens(s.drop_last());
            assert(t.push(s.last()).drop_last() =~= t);
        }
    }
}

proof fn lemma_symbols_of_brackets(s: Seq<char>)
    requires
        forall|i: int| 0 <= i < s.len() ==> is_bracket(#[trigger] s[i]),
    ensures
        symbols(s) =~= Multiset::<char>::empty(),
    decreases s.len(),
{
    if s.len() > 0 {
        let t = s.drop_last();
        assert forall|i: int| 0 <= i < t.len() implies is_bracket(#[trigger] t[i]) by {
            assert(t[i] == s[i]);
        }
        lemma_symbols_of_brackets(t);
        assert(is_bracket(s[s.len() - 1]));
    }
}

proof fn lemma_decompose_symbols(s: Seq<char>)
    requires
        decompose(s) is Some,
        no_symbol_before_open(s),
    ensures
        stroke_symbols(decompose(s)->0) =~= symbols(s),
    decreases s.len(),
{
    let e = first_close_from(s, 0);
    lemma_first_close_bounds(s, 0);
    if e >= s.len() {
        let v = decompose(s)->0;
        assert(v.drop_first() =~= Seq::<Seq<char>>::empty());
        assert(stroke_symbols(Seq::<Seq<char>>::empty()) =~= Multiset::<char>::empty());
        assert(v[0] == s);
        assert(stroke_symbols(v) =~= symbols(s));
    } else {
        lemma_step(s);
        let o = last_open_before(s, e);
        let r = cut(s, o, e);
        let a = s.subrange(0, o);
        let mid = s.subrange(o, e);
        let b = s.subrange(e + 1, s.len() as int);
        let w = e + 1 - o;
        assert forall|i: int, j: int|
            #![trigger r[i], r[j]]
            0 <= i < j < r.len() && r[j] == '[' implies is_bracket(r[i]) by {
            if j >= o {
                assert(r[j] == s[j + w]);
                if i >= o {
                    assert(r[i] == s[i + w]);
                } else {
                    assert(r[i] == s[i]);
                }
            } else {
                assert(r[j] == s[j]);
                assert(r[i] == s[i]);
            }
        }
        lemma_decompose_symbols(r);
        assert forall|i: int| 0 <= i < a.len() implies is_bracket(#[trigger] a[i]) by {
            assert(a[i] == s[i]);
            assert(s[o] == '[');
        }
        lemma_symbols_of_brackets(a);
        lemma_symbols_concat(a, b);
        assert(r =~= a + b);
        let close = seq![']'];
        assert(close.drop_last() =~= Seq::<char>::empty());
        assert(close.last() == ']');
        assert(symbols(Seq::<char>::empty()) =~= Multiset::<char>::empty());
        assert(is_bracket(close.last()));
        assert(symbols(close) =~= Multiset::<char>::empty());
        assert(s.subrange(0, e) =~= a + mid);
        lemma_symbols_concat(a, mid);
        lemma_symbols_strip(s.subrange(0, e));
        assert(s =~= (a + mid) + close + b);
        lemma_symbols_concat(a + mid + close, b);
        lemma_symbols_concat(a + mid, close);
        let v = decompose(s)->0;
        assert(v.drop_first() =~= decompose(r)->0);
    }
}

proof fn lemma_decompose_covers(s: Seq<char>)
    requires
        decompose(s) is Some,
    ensures
        symbols(s).subset_of(stroke_symbols(decompose(s)->0)),
    decreases s.len(),
{
    let e = first_close_from(s, 0);
    lemma_first_close_bounds(s, 0);
    if e >= s.len() {
        let v = decompose(s)->0;
        assert(v.drop_first() =~= Seq::<Seq<char>>::empty());
        assert(stroke_symbols(Seq::<Seq<char>>::empty()) =~= Multiset::<char>::empty());
        assert(v[0] == s);
        assert(stroke_symbols(v) =~= symbols(s));
    } else {
        lemma_step(s);
        let o = last_open_before(s, e);
        let r = cut(s, o, e);
        let a = s.subrange(0, o);
        let mid = s.subrange(o, e);
        let b = s.subrange(e + 1, s.len() as int);
        lemma_decompose_covers(r);
        lemma_symbols_concat(a, b);
        assert(r =~= a + b);
        let close = seq![']'];
        assert(close.drop_last() =~= Seq::<char>::empty());
        assert(close.last() == ']');
        assert(symbols(Seq::<char>::empty()) =~= Multiset::<char>::empty());
        assert(is_bracket(close.last()));
        assert(symbols(close) =~= Multiset::<char>::empty());
        assert(s.subrange(0, e) =~= a + mid);
        lemma_symbols_concat(a, mid);
        lemma_symbols_strip(s.subrange(0, e));
        assert(s =~= (a + mid) + close + b);
        lemma_symbols_concat(a + mid + close, b);
        lemma_symbols_concat(a + mid, close);
        let v = decompose(s)->0;
        assert(v.drop_first() =~= decompose(r)->0);
        let rest = stroke_symbols(decompose(r)->0);
        assert forall|x: char| #[trigger] symbols(s).count(x) <= stroke_symbols(v).count(x) by {
            assert(symbols(r).count(x) <= rest.count(x));
        }
    }
}

/// Where only branch markers stand before the last `[`, the strokes of a
/// balanced string hold, all together, exactly its non-bracket symbols.
pub proof fn lemma_symbols_conserved(s: Seq<char>)
    requires
        balanced(s),
        no_symbol_before_open(s),
    ensures
        decompose(s) is Some,
        stroke_symbols(decompose(s)->0) == symbols(s),
{
    lemma_balanced_decomposes(s);
    lemma_decompose_symbols(s);
}

/// Every non-bracket symbol of a balanced string reaches some stroke: the
/// input's symbols are contained in the strokes' symbols taken together.
pub proof fn lemma_symbols_covered(s: Seq<char>)
    requires
        balanced(s),
    ensures
        decompose(s) is Some,
        symbols(s).subset_of(stroke_symbols(decompose(s)->0)),
{
    lemma_balanced_decomposes(s);
    lemma_decompose_covers(s);
}

} // verus!
