use microgpt::tokenizer::{build_vocab, char_to_id, tokenize};

fn chars(s: &str) -> Vec<char> {
    s.chars().collect()
}

#[test]
fn vocab_is_sorted_distinct_characters() {
    let docs = vec![chars("emma"), chars("olivia"), chars("ava")];
    let v = build_vocab(&docs);
    assert_eq!(v, vec!['a', 'e', 'i', 'l', 'm', 'o', 'v']);
}

#[test]
fn vocab_of_nothing_is_empty() {
    let docs: Vec<Vec<char>> = vec![];
    assert!(build_vocab(&docs).is_empty());
    let blank: Vec<Vec<char>> = vec![vec![]];
    assert!(build_vocab(&blank).is_empty());
}

#[test]
fn char_to_id_is_position() {
    let v = vec!['a', 'e', 'i', 'l', 'm', 'o', 'v'];
    assert_eq!(char_to_id(&v, 'a'), 0);
    assert_eq!(char_to_id(&v, 'm'), 4);
    assert_eq!(char_to_id(&v, 'v'), 6);
}

#[test]
fn tokenize_wraps_with_boundary_token() {
    let v = vec!['a', 'e', 'i', 'l', 'm', 'o', 'v'];
    assert_eq!(tokenize(&chars("ava"), &v), vec![7, 0, 6, 0, 7]);
    assert_eq!(tokenize(&chars(""), &v), vec![7, 7]);
}

#[test]
fn tokens_decode_back() {
    let docs = vec![chars("zoë"), chars("jürgen"), chars("amélie")];
    let v = build_vocab(&docs);
    for d in &docs {
        let t = tokenize(d, &v);
        assert_eq!(t.len(), d.len() + 2);
        assert!(t.iter().all(|&i| i <= v.len()));
        let back: Vec<char> = t[1..t.len() - 1].iter().map(|&i| v[i]).collect();
        assert_eq!(&back, d);
    }
}
