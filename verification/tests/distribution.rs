use huffman::funcs::symbol_probabilities;
use huffman::symbols::{distribution_entries, from_symbol_iter};
use huffman::types::HuffmanError;

fn chars(text: &str) -> Vec<char> {
    text.chars().collect()
}

#[test]
fn test_from_symbols() {
    let symbols = "abcdefgabcdaba";
    let symbol_freqs = from_symbol_iter(&chars(symbols));
    println!("{:#?}", symbol_freqs);
    let symbol_freqs = symbol_freqs.unwrap();
    assert_eq!(symbol_freqs.len(), 7);
    assert_eq!(symbol_freqs[&'a'], 4);
    assert_eq!(symbol_freqs[&'b'], 3);
    assert_eq!(symbol_freqs[&'c'], 2);
    assert_eq!(symbol_freqs[&'d'], 2);
    assert_eq!(symbol_freqs[&'e'], 1);
    assert_eq!(symbol_freqs[&'f'], 1);
    assert_eq!(symbol_freqs[&'g'], 1);
}

#[test]
fn counts_add_up_to_the_number_of_symbols() {
    let symbols = chars("aaaabbbccd");
    let dist = from_symbol_iter(&symbols).unwrap();
    let total: u64 = dist.values().sum();
    assert_eq!(total, 10);
    assert_eq!(dist[&'a'], 4);
    assert_eq!(dist[&'b'], 3);
    assert_eq!(dist[&'c'], 2);
    assert_eq!(dist[&'d'], 1);
    assert_eq!(dist.len(), 4);
}

#[test]
fn probabilities_of_a_text() {
    let symbols = chars("aaaabbbccd");
    let mut dist = symbol_probabilities(&symbols).unwrap();
    dist.sort();
    let total = symbols.len() as f64;
    let probabilities: Vec<(char, f64)> =
        dist.iter().map(|(s, c)| (*s, *c as f64 / total)).collect();
    assert_eq!(probabilities, vec![('a', 0.4), ('b', 0.3), ('c', 0.2), ('d', 0.1)]);
    let sum: f64 = probabilities.iter().map(|(_, p)| *p).sum();
    assert!((sum - 1.0).abs() < 1e-12);
}

#[test]
fn symbol_probabilities_lists_each_symbol_once() {
    let symbols = vec![7u32, 7, 9, 7, 1, 9];
    let mut dist = symbol_probabilities(&symbols).unwrap();
    dist.sort();
    assert_eq!(dist, vec![(1, 1), (7, 3), (9, 2)]);
}

#[test]
fn single_symbol_distribution() {
    let dist = symbol_probabilities(&chars("aaaa")).unwrap();
    assert_eq!(dist, vec![('a', 4)]);
}

#[test]
fn empty_input_is_an_error() {
    let none: Vec<char> = Vec::new();
    assert_eq!(from_symbol_iter(&none), Err(HuffmanError::EmptyInput));
    assert_eq!(symbol_probabilities(&none), Err(HuffmanError::EmptyInput));
}

#[test]
fn entries_list_the_whole_distribution() {
    let dist = from_symbol_iter(&[3u8, 1, 3, 3, 2, 1]).unwrap();
    let mut entries = distribution_entries(&dist);
    entries.sort();
    assert_eq!(entries, vec![(1, 2), (2, 1), (3, 3)]);
}
