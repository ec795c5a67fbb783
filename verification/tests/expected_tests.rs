use huffman_coding::errors::SymbolMappingError;
use huffman_coding::utils::{cross_check, expected, find_symbol};

fn codes_of(entries: &[(char, &str)]) -> Vec<(char, String)> {
    entries.iter().map(|entry| (entry.0, entry.1.to_string())).collect()
}

#[test]
fn test_expected() {
    let codes = codes_of(&[('A', "11"), ('C', "101"), ('B', "100"), ('D', "0")]);
    let f: Vec<(char, u64)> = vec![('A', 333), ('B', 83), ('C', 166), ('D', 416)];
    let weighted = expected(&f, &codes).unwrap();
    assert_eq!(weighted, 1829);
    let result = weighted as f32 / 1000.0;
    let difference = (result - 1.8289999_f32).abs();
    assert!(difference <= 1e-9 || difference <= f32::EPSILON * result.abs().max(1.8289999));
}

#[test]
fn test_mismatch() {
    let codes =
        codes_of(&[('A', "11"), ('C', "101"), ('B', "100"), ('D', "0"), ('E', "0000")]);
    let f: Vec<(char, u64)> = vec![('A', 333), ('B', 83), ('C', 166), ('D', 416)];
    let result = expected(&f, &codes);
    assert!(result.is_err());
    match result {
        Ok(_) => panic!("Expected an Err, got Ok"),
        Err(e) => match e {
            SymbolMappingError::ExtraSymbolInCodes(symbol) => {
                assert_eq!(symbol, 'E');
            }
            _ => panic!("Received wrong error type"),
        },
    }
}

#[test]
fn expected_names_the_symbol_without_a_code() {
    let codes = codes_of(&[('A', "11"), ('C', "101"), ('D', "0")]);
    let f: Vec<(char, u64)> = vec![('A', 333), ('B', 83), ('C', 166), ('D', 416)];
    assert_eq!(expected(&f, &codes), Err(SymbolMappingError::SymbolNotFoundInCodes('B')));
}

#[test]
fn a_missing_code_is_reported_before_an_extra_one() {
    let codes = codes_of(&[('A', "0"), ('E', "10"), ('F', "11")]);
    let f: Vec<(char, u64)> = vec![('A', 1), ('B', 1), ('C', 1)];
    assert_eq!(cross_check(&f, &codes), Err(SymbolMappingError::SymbolNotFoundInCodes('B')));
    assert_eq!(expected(&f, &codes), Err(SymbolMappingError::SymbolNotFoundInCodes('B')));
}

#[test]
fn the_first_extra_symbol_is_reported() {
    let codes = codes_of(&[('F', "110"), ('A', "0"), ('E', "10")]);
    let f: Vec<(char, u64)> = vec![('A', 4)];
    assert_eq!(cross_check(&f, &codes), Err(SymbolMappingError::ExtraSymbolInCodes('F')));
}

#[test]
fn cross_check_accepts_the_same_symbols_in_another_order() {
    let codes = codes_of(&[('B', "1"), ('A', "0")]);
    let f: Vec<(char, u64)> = vec![('A', 2), ('B', 2)];
    assert_eq!(cross_check(&f, &codes), Ok(()));
    assert_eq!(expected(&f, &codes), Ok(4));
}

#[test]
fn expected_of_empty_tables_is_zero() {
    let codes: Vec<(char, String)> = Vec::new();
    let f: Vec<(char, u64)> = Vec::new();
    assert_eq!(expected(&f, &codes), Ok(0));
}

#[test]
fn expected_counts_characters_of_a_code() {
    let codes = codes_of(&[('A', "0101"), ('B', "")]);
    let f: Vec<(char, u64)> = vec![('A', 3), ('B', 100)];
    assert_eq!(expected(&f, &codes), Ok(12));
}

#[test]
fn expected_uses_the_first_code_of_a_symbol() {
    let codes = codes_of(&[('A', "0"), ('A', "111")]);
    let f: Vec<(char, u64)> = vec![('A', 5)];
    assert_eq!(expected(&f, &codes), Ok(5));
}

#[test]
fn find_symbol_gives_the_first_place() {
    let table = vec![('x', 1), ('y', 2), ('x', 3)];
    assert_eq!(find_symbol(&table, 'x'), Some(0));
    assert_eq!(find_symbol(&table, 'y'), Some(1));
    assert_eq!(find_symbol(&table, 'z'), None);
}

#[test]
fn messages_name_the_symbol() {
    assert_eq!(
        SymbolMappingError::SymbolNotFoundInCodes('B').message(),
        "Symbol B found in frequencies but not in codes."
    );
    assert_eq!(
        SymbolMappingError::ExtraSymbolInCodes('E').message(),
        "Extra symbol E found in codes but not in frequencies."
    );
    assert_eq!(
        SymbolMappingError::UnknownSymbolInString.message(),
        "Unknown symbol found in the input string."
    );
    assert_eq!(
        SymbolMappingError::EmptyAlphabet.message(),
        "Cannot build a tree for an empty alphabet."
    );
}
