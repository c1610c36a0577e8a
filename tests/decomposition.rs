use lsystem::{separate_stack_strings, LindenmayerError};

fn strokes(v: &[&str]) -> Vec<String> {
    v.iter().map(|s| s.to_string()).collect()
}

#[test]
fn binary_tree_generation_one_decomposes() {
    // The bracketed span "[0]" is cut out together with nothing else, so the
    // residual keeps the prefix "1" before the "[".
    assert_eq!(separate_stack_strings("1[0]0"), Ok(strokes(&["10", "10"])));
}

#[test]
fn string_without_brackets_is_one_stroke() {
    assert_eq!(separate_stack_strings("AB"), Ok(strokes(&["AB"])));
}

#[test]
fn empty_string_is_one_empty_stroke() {
    assert_eq!(separate_stack_strings(""), Ok(strokes(&[""])));
}

#[test]
fn nested_branches_resolve_innermost_first() {
    assert_eq!(
        separate_stack_strings("A[B[C]D]E"),
        Ok(strokes(&["ABC", "ABD", "AE"]))
    );
}

#[test]
fn sibling_branches_resolve_left_to_right() {
    assert_eq!(
        separate_stack_strings("F[+F][-F]F"),
        Ok(strokes(&["F+F", "F-F", "FF"]))
    );
}

#[test]
fn stroke_count_is_one_more_than_open_brackets() {
    let input = "11[1[0]0]1[0]0";
    let out = separate_stack_strings(input).unwrap();
    assert_eq!(out.len(), 1 + input.chars().filter(|c| *c == '[').count());
    assert_eq!(out, strokes(&["1110", "1110", "1110", "1110"]));
}

#[test]
fn strokes_hold_no_brackets() {
    let out = separate_stack_strings("[[A]B]C[D]").unwrap();
    assert_eq!(out, strokes(&["A", "B", "CD", "C"]));
    assert!(out.iter().all(|s| !s.contains('[') && !s.contains(']')));
}

#[test]
fn unmatched_close_is_malformed() {
    assert_eq!(
        separate_stack_strings("A]B"),
        Err(LindenmayerError::MalformedBracketStructure { position: 1 })
    );
    assert_eq!(
        separate_stack_strings("[A]]B[C]"),
        Err(LindenmayerError::MalformedBracketStructure { position: 3 })
    );
}

#[test]
fn unclosed_open_is_malformed_at_end() {
    assert_eq!(
        separate_stack_strings("A[B"),
        Err(LindenmayerError::MalformedBracketStructure { position: 3 })
    );
    assert_eq!(
        separate_stack_strings("["),
        Err(LindenmayerError::MalformedBracketStructure { position: 1 })
    );
}

fn symbol_counts(strings: &[String]) -> Vec<(char, usize)> {
    let mut counts: Vec<(char, usize)> = Vec::new();
    for s in strings {
        for c in s.chars().filter(|c| *c != '[' && *c != ']') {
            match counts.iter_mut().find(|(k, _)| *k == c) {
                Some(entry) => entry.1 += 1,
                None => counts.push((c, 1)),
            }
        }
    }
    counts.sort();
    counts
}

#[test]
fn symbols_are_conserved_when_branches_lead() {
    let input = "[[A]B]C";
    let out = separate_stack_strings(input).unwrap();
    assert_eq!(out, strokes(&["A", "B", "C"]));
    assert_eq!(symbol_counts(&out), symbol_counts(&[input.to_string()]));
}

#[test]
fn symbols_before_a_branch_are_repeated() {
    let input = "1[0]0";
    let out = separate_stack_strings(input).unwrap();
    assert_eq!(symbol_counts(&out), vec![('0', 2), ('1', 2)]);
    assert_eq!(symbol_counts(&[input.to_string()]), vec![('0', 2), ('1', 1)]);
}

#[test]
fn non_ascii_strokes() {
    assert_eq!(
        separate_stack_strings("é[ß]ü"),
        Ok(strokes(&["éß", "éü"]))
    );
}
