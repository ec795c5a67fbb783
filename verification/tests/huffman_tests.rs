use huffman_coding::errors::SymbolMappingError;
use huffman_coding::nodes::{Node, NodeKind};
use huffman_coding::utils::{build, expected, extract, freq_to_prob, frequency, huffman};

fn leaf(symbol: char, weight: u64) -> Node {
    Node { weight, kind: NodeKind::Leaf { symbol } }
}

fn join(left: Node, right: Node) -> Node {
    Node {
        weight: left.weight + right.weight,
        kind: NodeKind::Internal { left: Box::new(left), right: Box::new(right) },
    }
}

fn codes_of(entries: &[(char, &str)]) -> Vec<(char, String)> {
    entries.iter().map(|entry| (entry.0, entry.1.to_string())).collect()
}

fn is_prefix_free(codes: &[(char, String)]) -> bool {
    for (i, a) in codes.iter().enumerate() {
        for (j, b) in codes.iter().enumerate() {
            if i != j && b.1.starts_with(a.1.as_str()) {
                return false;
            }
        }
    }
    true
}

#[test]
fn build_refuses_an_empty_table() {
    let table: Vec<(char, u64)> = Vec::new();
    assert_eq!(build(&table), Err(SymbolMappingError::EmptyAlphabet));
    assert_eq!(huffman(table), Err(SymbolMappingError::EmptyAlphabet));
}

#[test]
fn build_of_one_symbol_is_a_leaf() {
    let table = vec![('A', 7)];
    assert_eq!(build(&table), Ok(leaf('A', 7)));
}

#[test]
fn one_symbol_gets_the_code_zero() {
    assert_eq!(huffman(vec![('A', 7)]), Ok(codes_of(&[('A', "0")])));
    assert_eq!(extract(&leaf('q', 0)), codes_of(&[('q', "0")]));
}

#[test]
fn build_merges_the_two_lightest_first() {
    let table = vec![('a', 5), ('b', 9), ('c', 12), ('d', 13), ('e', 16), ('f', 45)];
    let tree = build(&table).unwrap();
    let wanted = join(
        leaf('f', 45),
        join(
            join(leaf('c', 12), leaf('d', 13)),
            join(join(leaf('a', 5), leaf('b', 9)), leaf('e', 16)),
        ),
    );
    assert_eq!(tree, wanted);
    assert_eq!(tree.weight, 100);
}

#[test]
fn huffman_gives_the_codes_of_the_tree() {
    let table = vec![('a', 5), ('b', 9), ('c', 12), ('d', 13), ('e', 16), ('f', 45)];
    let codes = huffman(table.clone()).unwrap();
    assert_eq!(
        codes,
        codes_of(&[
            ('f', "0"),
            ('c', "100"),
            ('d', "101"),
            ('a', "1100"),
            ('b', "1101"),
            ('e', "111"),
        ])
    );
    assert_eq!(expected(&table, &codes), Ok(224));
}

#[test]
fn equal_weights_leave_in_the_order_of_the_table() {
    let table = vec![('A', 1), ('B', 1), ('C', 1), ('D', 1)];
    assert_eq!(
        build(&table),
        Ok(join(join(leaf('A', 1), leaf('B', 1)), join(leaf('C', 1), leaf('D', 1))))
    );
    assert_eq!(
        huffman(table),
        Ok(codes_of(&[('A', "00"), ('B', "01"), ('C', "10"), ('D', "11")]))
    );
}

#[test]
fn a_join_waits_behind_older_nodes_of_its_weight() {
    let table = vec![('A', 1), ('B', 1), ('C', 2)];
    assert_eq!(build(&table), Ok(join(leaf('C', 2), join(leaf('A', 1), leaf('B', 1)))));
}

#[test]
fn the_lighter_node_becomes_the_left_subtree() {
    let table = vec![('A', 9), ('B', 2)];
    assert_eq!(build(&table), Ok(join(leaf('B', 2), leaf('A', 9))));
    assert_eq!(huffman(table), Ok(codes_of(&[('B', "0"), ('A', "1")])));
}

#[test]
fn extract_writes_zero_to_the_left_and_one_to_the_right() {
    let tree = join(join(leaf('x', 1), join(leaf('y', 1), leaf('z', 1))), leaf('w', 4));
    assert_eq!(
        extract(&tree),
        codes_of(&[('x', "00"), ('y', "010"), ('z', "011"), ('w', "1")])
    );
}

#[test]
fn huffman_codes_are_prefix_free_and_not_empty() {
    let texts = [
        "A",
        "ABBA",
        "abracadabra",
        "1234567890ABjBA1WROJEX(U@#X(@(#((@((@DKODJWOJEWOJWOeeeeeeeeeeeeeeee aaaaaaaccchhh '{;#@ghjLKJ",
    ];
    for text in texts {
        let weights = freq_to_prob(&frequency(text));
        let codes = huffman(weights.clone()).unwrap();
        assert_eq!(codes.len(), weights.len());
        assert!(is_prefix_free(&codes));
        for (symbol, code) in codes.iter() {
            assert!(!code.is_empty());
            assert!(code.chars().all(|bit| bit == '0' || bit == '1'));
            assert!(weights.iter().any(|entry| entry.0 == *symbol));
        }
        assert!(expected(&weights, &codes).is_ok());
    }
}

#[test]
fn building_twice_gives_the_same_tree_and_codes() {
    let table = freq_to_prob(&frequency("mississippi river"));
    let first = build(&table).unwrap();
    let second = build(&table).unwrap();
    assert_eq!(first, second);
    assert_eq!(extract(&first), extract(&second));
    assert_eq!(huffman(table.clone()), huffman(table));
}

#[test]
fn zero_weights_are_merged_like_any_other() {
    let table = vec![('A', 0), ('B', 0), ('C', 3)];
    assert_eq!(
        huffman(table),
        Ok(codes_of(&[('A', "00"), ('B', "01"), ('C', "1")]))
    );
}

#[test]
fn distinct_symbols_get_one_code_each() {
    let weights = freq_to_prob(&frequency("she sells sea shells by the sea shore"));
    let codes = huffman(weights.clone()).unwrap();
    assert_eq!(codes.len(), weights.len());
    for (i, a) in codes.iter().enumerate() {
        for b in codes.iter().skip(i + 1) {
            assert_ne!(a.0, b.0);
        }
    }
}

#[test]
fn a_symbol_named_twice_gets_a_code_for_each_entry() {
    let codes = huffman(vec![('A', 1), ('A', 2)]).unwrap();
    assert_eq!(codes, codes_of(&[('A', "0"), ('A', "1")]));
}

#[test]
fn extract_of_a_built_tree_is_the_code_of_the_table() {
    let table = vec![('x', 4), ('y', 1), ('z', 2)];
    let tree = build(&table).unwrap();
    assert_eq!(Ok(extract(&tree)), huffman(table));
}
