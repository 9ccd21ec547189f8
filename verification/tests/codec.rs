use huffman::codec::{decode, encode, Huffman};
use huffman::funcs::{generate_table, generate_tree};
use huffman::symbols::from_symbol_iter;
use huffman::types::{Bit, HuffmanError, HuffmanTree};

fn chars(text: &str) -> Vec<char> {
    text.chars().collect()
}

fn code_of(huffman: &Huffman<char>, symbol: char) -> Vec<Bit> {
    huffman.table()[&symbol].clone()
}

#[test]
fn frequent_symbols_get_short_codes() {
    let text = chars("aaaabbbccd");
    let huffman = Huffman::from_symbols(&text).unwrap();
    assert!(!huffman.is_degenerate());
    assert_eq!(huffman.tree().prob(), 10);
    assert_eq!(huffman.table().len(), 4);
    let (a, b) = (code_of(&huffman, 'a'), code_of(&huffman, 'b'));
    let (c, d) = (code_of(&huffman, 'c'), code_of(&huffman, 'd'));
    // The two most frequent symbols have the two shortest codes.
    assert_eq!((a.len(), b.len(), c.len(), d.len()), (1, 2, 3, 3));
    assert!(a.len() <= c.len() && a.len() <= d.len());
    assert!(b.len() <= c.len() && b.len() <= d.len());
    assert!(2 <= c.len() && c.len() <= 3 && 2 <= d.len() && d.len() <= 3);
    // Weighted length against two other prefix codes for the same weights:
    // all codes of length 2 (20), and lengths 3, 3, 2, 1 the wrong way round (31).
    let weighted = 4 * a.len() + 3 * b.len() + 2 * c.len() + d.len();
    assert_eq!(weighted, 19);
    assert!(weighted <= 4 * 2 + 3 * 2 + 2 * 2 + 2);
    assert!(weighted <= 4 * 3 + 3 * 3 + 2 * 2 + 1);
    let code = huffman.encode(&text).unwrap();
    assert_eq!(code.len(), 19);
    assert_eq!(huffman.decode(&code).unwrap(), text);
}

#[test]
fn single_symbol_alphabet_has_the_empty_code() {
    let text = chars("aaaa");
    let huffman = Huffman::from_symbols(&text).unwrap();
    assert!(huffman.is_degenerate());
    assert!(matches!(huffman.tree(), HuffmanTree::Leaf { p: 4, symbol: 'a' }));
    assert_eq!(huffman.table().len(), 1);
    assert_eq!(code_of(&huffman, 'a'), Vec::<Bit>::new());
    assert_eq!(huffman.encode(&text).unwrap(), Vec::<Bit>::new());
}

#[test]
fn single_symbol_tree_decodes_no_bits_to_no_symbols() {
    let huffman = Huffman::from_symbols(&chars("aaaa")).unwrap();
    assert_eq!(huffman.decode(&[]).unwrap(), Vec::<char>::new());
    assert_eq!(huffman.decode(&[Bit::L]), Err(HuffmanError::MalformedCode));
    assert_eq!(huffman.decode(&[Bit::R, Bit::L]), Err(HuffmanError::MalformedCode));
}

#[test]
fn two_balanced_symbols_get_one_bit_each() {
    let huffman = Huffman::from_symbols(&chars("aabb")).unwrap();
    match huffman.tree() {
        HuffmanTree::Node { p, left, right } => {
            assert_eq!(*p, 4);
            assert!(matches!(**left, HuffmanTree::Leaf { p: 2, .. }));
            assert!(matches!(**right, HuffmanTree::Leaf { p: 2, .. }));
        }
        HuffmanTree::Leaf { .. } => panic!("a node was expected"),
    }
    let (a, b) = (code_of(&huffman, 'a'), code_of(&huffman, 'b'));
    assert!(a == vec![Bit::L] || a == vec![Bit::R]);
    assert!(b == vec![Bit::L] || b == vec![Bit::R]);
    assert_ne!(a, b);
    let code = huffman.encode(&chars("ab")).unwrap();
    assert_eq!(code.len(), 2);
    assert_eq!(code, vec![a[0], b[0]]);
    assert_eq!(huffman.decode(&code).unwrap(), chars("ab"));
}

#[test]
fn unknown_symbol_is_refused() {
    let huffman = Huffman::from_symbols(&chars("abc")).unwrap();
    assert_eq!(huffman.encode(&chars("abcd")), Err(HuffmanError::SymbolNotFound('d')));
    assert_eq!(huffman.encode(&chars("xabcd")), Err(HuffmanError::SymbolNotFound('x')));
    assert_eq!(huffman.encode(&chars("abyzc")), Err(HuffmanError::SymbolNotFound('y')));
}

#[test]
fn truncated_code_is_refused() {
    let text = chars("aaaabbbccd");
    let huffman = Huffman::from_symbols(&text).unwrap();
    // "d" has a code of three bits; two of them end inside the tree.
    let mut code = huffman.encode(&chars("abd")).unwrap();
    assert_eq!(code.len(), 6);
    code.pop();
    assert_eq!(huffman.decode(&code), Err(HuffmanError::MalformedCode));
    code.pop();
    assert_eq!(huffman.decode(&code), Err(HuffmanError::MalformedCode));
    code.pop();
    assert_eq!(huffman.decode(&code).unwrap(), chars("ab"));
}

#[test]
fn round_trip_of_texts() {
    for text in ["abracadabra", "mississippi", "ab", "the quick brown fox", "aab"] {
        let symbols = chars(text);
        let huffman = Huffman::from_symbols(&symbols).unwrap();
        let code = huffman.encode(&symbols).unwrap();
        assert_eq!(huffman.decode(&code).unwrap(), symbols);
    }
}

#[test]
fn round_trip_of_other_symbols_of_the_alphabet() {
    let huffman = Huffman::from_symbols(&chars("aaaabbbccd")).unwrap();
    let other = chars("dcbaabcdddd");
    let code = huffman.encode(&other).unwrap();
    assert_eq!(huffman.decode(&code).unwrap(), other);
    assert_eq!(huffman.encode(&[]).unwrap(), Vec::<Bit>::new());
    assert_eq!(huffman.decode(&[]).unwrap(), Vec::<char>::new());
}

#[test]
fn round_trip_of_tokens() {
    let words = vec!["to", "be", "or", "not", "to", "be"];
    let huffman = Huffman::from_symbols(&words).unwrap();
    let code = huffman.encode(&words).unwrap();
    assert_eq!(code.len(), 2 * 2 + 2 * 2 + 2 + 2);
    assert_eq!(huffman.decode(&code).unwrap(), words);
}

#[test]
fn empty_input_has_no_code() {
    let none: Vec<char> = Vec::new();
    assert!(matches!(Huffman::from_symbols(&none), Err(HuffmanError::EmptyInput)));
}

#[test]
fn code_from_a_distribution() {
    let dist = from_symbol_iter(&chars("aaaabbbccd")).unwrap();
    let huffman = Huffman::from_symbol_dist(dist);
    assert_eq!(huffman.tree().prob(), 10);
    assert_eq!(huffman.table().len(), 4);
    assert_eq!(code_of(&huffman, 'a'), vec![Bit::L]);
    assert_eq!(code_of(&huffman, 'b'), vec![Bit::R, Bit::L]);
    assert_eq!(code_of(&huffman, 'd'), vec![Bit::R, Bit::R, Bit::L]);
    assert_eq!(code_of(&huffman, 'c'), vec![Bit::R, Bit::R, Bit::R]);
}

#[test]
fn encode_with_a_table() {
    let tree = generate_tree(vec![('a', 4), ('b', 3), ('c', 2), ('d', 1)]);
    let table = generate_table(&tree);
    let code = encode(&table, &chars("bad")).unwrap();
    assert_eq!(code, vec![Bit::R, Bit::L, Bit::L, Bit::R, Bit::R, Bit::L]);
    assert_eq!(encode(&table, &chars("bad!")), Err(HuffmanError::SymbolNotFound('!')));
}

#[test]
fn decode_with_a_tree() {
    let tree = generate_tree(vec![('a', 4), ('b', 3), ('c', 2), ('d', 1)]);
    let code = vec![Bit::R, Bit::R, Bit::R, Bit::L, Bit::R, Bit::L];
    assert_eq!(decode(&tree, &code).unwrap(), chars("cab"));
    assert_eq!(decode(&tree, &[Bit::R]), Err(HuffmanError::MalformedCode));
    assert_eq!(decode(&tree, &[Bit::L, Bit::R, Bit::R]), Err(HuffmanError::MalformedCode));
}
