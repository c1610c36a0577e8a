use lsystem::{expand_generations, generation_strokes, LindenmayerError, Rules};

fn binary_tree() -> Rules {
    let mut rules = Rules::new();
    rules.insert('1', "11".to_string());
    rules.insert('0', "1[0]0".to_string());
    rules
}

fn strokes(v: &[&str]) -> Vec<String> {
    v.iter().map(|s| s.to_string()).collect()
}

#[test]
fn zero_generations_return_the_start() {
    let rules = Rules::new();
    assert_eq!(expand_generations("XYZ", &[], &rules, 0), Ok("XYZ".to_string()));
}

#[test]
fn binary_tree_third_generation() {
    let rules = binary_tree();
    assert_eq!(
        expand_generations("0", &['[', ']'], &rules, 3),
        Ok("1111[11[1[0]0]1[0]0]11[1[0]0]1[0]0".to_string())
    );
}

#[test]
fn closed_alphabet_never_fails() {
    let mut rules = Rules::new();
    rules.insert('A', "AB".to_string());
    rules.insert('B', "A".to_string());
    let out = expand_generations("A", &[], &rules, 12).unwrap();
    // Fibonacci lengths: generation n has F(n + 2) symbols.
    assert_eq!(out.chars().count(), 377);
    assert!(out.chars().all(|c| c == 'A' || c == 'B'));
}

#[test]
fn open_alphabet_fails_in_the_generation_that_meets_the_symbol() {
    let mut rules = Rules::new();
    rules.insert('A', "AB".to_string());
    assert_eq!(expand_generations("A", &[], &rules, 1), Ok("AB".to_string()));
    assert_eq!(
        expand_generations("A", &[], &rules, 2),
        Err(LindenmayerError::UndefinedSymbol { symbol: 'B', position: 1 })
    );
    assert_eq!(
        expand_generations("A", &[], &rules, 5),
        Err(LindenmayerError::UndefinedSymbol { symbol: 'B', position: 1 })
    );
}

#[test]
fn binary_tree_strokes_after_one_generation() {
    let rules = binary_tree();
    assert_eq!(
        generation_strokes("0", &['[', ']'], &rules, 1),
        Ok(strokes(&["10", "10"]))
    );
}

#[test]
fn plant_strokes_after_one_generation() {
    let mut rules = Rules::new();
    rules.insert('X', "F+[[X]-X]-F[-FX]+X".to_string());
    rules.insert('F', "FF".to_string());
    assert_eq!(
        generation_strokes("-X", &['+', '-', '[', ']'], &rules, 1),
        Ok(strokes(&["-F+X", "-F+-X", "-F+-F-FX", "-F+-F+X"]))
    );
}

#[test]
fn plant_stroke_count_grows_with_generations() {
    let mut rules = Rules::new();
    rules.insert('X', "F+[[X]-X]-F[-FX]+X".to_string());
    rules.insert('F', "FF".to_string());
    let constants = ['+', '-', '[', ']'];
    let last = expand_generations("-X", &constants, &rules, 3).unwrap();
    let opens = last.chars().filter(|c| *c == '[').count();
    let closes = last.chars().filter(|c| *c == ']').count();
    let out = generation_strokes("-X", &constants, &rules, 3).unwrap();
    assert_eq!(out.len(), 1 + opens);
    assert_eq!(out.len(), (opens + closes) / 2 + 1);
}

#[test]
fn strokes_report_undefined_symbols() {
    let rules = binary_tree();
    assert_eq!(
        generation_strokes("0", &[], &rules, 2),
        Err(LindenmayerError::UndefinedSymbol { symbol: '[', position: 1 })
    );
}

#[test]
fn strokes_report_malformed_generations() {
    let mut rules = Rules::new();
    rules.insert('A', "A]".to_string());
    assert_eq!(
        generation_strokes("A", &[']'], &rules, 1),
        Err(LindenmayerError::MalformedBracketStructure { position: 1 })
    );
}
