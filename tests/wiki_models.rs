use lsystem::{progress, Rules};

fn generations(start: &str, constants: &[char], rules: &Rules, count: usize) -> Vec<String> {
    (0..count)
        .map(|i| {
            (0..i).fold(start.to_string(), |acc, _| {
                progress(&acc, constants, rules).unwrap()
            })
        })
        .collect()
}

#[test]
fn wiki_algae_model() {
    let start = "A".to_string();
    let expected: Vec<String> = [
        "A",
        "AB",
        "ABA",
        "ABAAB",
        "ABAABABA",
        "ABAABABAABAAB",
        "ABAABABAABAABABAABABA",
        "ABAABABAABAABABAABABAABAABABAABAAB",
    ]
    .iter()
    .map(|str| str.to_string())
    .collect();

    let mut rules: Rules = Rules::new();

    rules.insert('A', "AB".to_string());
    rules.insert('B', "A".to_string());

    let result: &[String] = &generations(&start, &[], &rules, 8);
    assert_eq!(&expected, result);
}

#[test]
fn wiki_binary_tree_model() {
    let start = "0".to_string();
    let expected: Vec<String> = [
        "0",
        "1[0]0",
        "11[1[0]0]1[0]0",
        "1111[11[1[0]0]1[0]0]11[1[0]0]1[0]0",
    ]
    .iter()
    .map(|str| str.to_string())
    .collect();

    let mut rules: Rules = Rules::new();

    rules.insert('1', "11".to_string());
    rules.insert('0', "1[0]0".to_string());

    let result: &[String] = &generations(&start, &['[', ']'], &rules, 4);
    assert_eq!(&expected, result);
}

#[test]
fn wiki_koch_curve() {
    let start = "F".to_string();
    let expected: Vec<String> = [
        "F",
        "F+F-F-F+F",
        "F+F-F-F+F+F+F-F-F+F-F+F-F-F+F-F+F-F-F+F+F+F-F-F+F",
        "F+F-F-F+F+F+F-F-F+F-F+F-F-F+F-F+F-F-F+F+F+F-F-F+F+F+F-F-F+F+F+F-F-F+F-F+F-F-F+F-F+F-F-F+F+F+F-F-F+F-F+F-F-F+F+F+F-F-F+F-F+F-F-F+F-F+F-F-F+F+F+F-F-F+F-F+F-F-F+F+F+F-F-F+F-F+F-F-F+F-F+F-F-F+F+F+F-F-F+F+F+F-F-F+F+F+F-F-F+F-F+F-F-F+F-F+F-F-F+F+F+F-F-F+F",
    ]
    .iter()
    .map(|str| str.to_string())
    .collect();

    let mut rules: Rules = Rules::new();

    rules.insert('F', "F+F-F-F+F".to_string());

    let result: &[String] = &generations(&start, &['+', '-'], &rules, 4);
    for i in 0..expected.len() {
        assert_eq!(expected[i], result[i]);
    }
}
