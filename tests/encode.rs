use lsystem::{encode_stroke, encode_strokes, CharMap, EncodeError};

fn plant_codes() -> CharMap<u32> {
    let mut codes = CharMap::new();
    for (symbol, code) in [('X', 0), ('F', 1), ('+', 2), ('-', 3)] {
        codes.insert(symbol, code);
    }
    codes
}

#[test]
fn stroke_codes_are_padded_to_the_width() {
    let codes = plant_codes();
    assert_eq!(encode_stroke("F+X", &codes, 6, 100), Ok(vec![1, 2, 0, 100, 100, 100]));
}

#[test]
fn stroke_of_exact_width_has_no_padding() {
    let codes = plant_codes();
    assert_eq!(encode_stroke("-F", &codes, 2, 100), Ok(vec![3, 1]));
}

#[test]
fn empty_stroke_is_all_fill() {
    let codes = plant_codes();
    assert_eq!(encode_stroke("", &codes, 3, 7), Ok(vec![7, 7, 7]));
}

#[test]
fn symbol_without_code_is_reported() {
    let codes = plant_codes();
    assert_eq!(
        encode_stroke("F+Y-Z", &codes, 70, 100),
        Err(EncodeError::UnknownSymbol { symbol: 'Y', position: 2 })
    );
}

#[test]
fn stroke_longer_than_the_row_is_reported() {
    let codes = plant_codes();
    assert_eq!(
        encode_stroke("FFFF", &codes, 3, 100),
        Err(EncodeError::TooLong { length: 4, width: 3 })
    );
}

#[test]
fn unknown_symbol_is_found_before_length() {
    let codes = plant_codes();
    assert_eq!(
        encode_stroke("FFFFQ", &codes, 3, 100),
        Err(EncodeError::UnknownSymbol { symbol: 'Q', position: 4 })
    );
}

#[test]
fn every_stroke_is_encoded_in_order() {
    let codes = plant_codes();
    let strokes = vec!["-F+X".to_string(), "F".to_string()];
    assert_eq!(
        encode_strokes(&strokes, &codes, 4, 9),
        Ok(vec![vec![3, 1, 2, 0], vec![1, 9, 9, 9]])
    );
}

#[test]
fn first_failing_stroke_stops_encoding() {
    let codes = plant_codes();
    let strokes = vec!["F".to_string(), "FFFFF".to_string(), "Z".to_string()];
    assert_eq!(
        encode_strokes(&strokes, &codes, 4, 9),
        Err(EncodeError::TooLong { length: 5, width: 4 })
    );
}

#[test]
fn later_code_replaces_earlier() {
    let mut codes = plant_codes();
    codes.insert('F', 42);
    assert_eq!(codes.get('F'), Some(&42));
    assert_eq!(encode_stroke("F", &codes, 1, 0), Ok(vec![42]));
}
