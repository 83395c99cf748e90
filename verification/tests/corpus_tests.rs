use microgpt::corpus::parse_docs;

fn strings(d: Vec<Vec<char>>) -> Vec<String> {
    d.into_iter().map(|l| l.into_iter().collect()).collect()
}

#[test]
fn lines_are_trimmed_and_blank_ones_dropped() {
    let docs = parse_docs("  alice \r\n\nbob\n  \n\tcarol");
    assert_eq!(strings(docs), vec!["alice", "bob", "carol"]);
}

#[test]
fn trailing_newline_adds_nothing() {
    let docs = parse_docs("emma\nolivia\n");
    assert_eq!(strings(docs), vec!["emma", "olivia"]);
}

#[test]
fn empty_text_has_no_documents() {
    assert!(parse_docs("").is_empty());
    assert!(parse_docs("\n\n \n").is_empty());
}

#[test]
fn inner_spaces_stay() {
    let docs = parse_docs("\u{00a0}mary ann\u{3000}\n");
    assert_eq!(strings(docs), vec!["mary ann"]);
}

#[test]
fn matches_std_lines_trim_filter() {
    let text = "a\r\n b \n\n\u{2003}c\u{2003}\r\nd e\n\r\n";
    let expected: Vec<String> = text
        .lines()
        .map(|l| l.trim())
        .filter(|l| !l.is_empty())
        .map(|l| l.to_string())
        .collect();
    assert_eq!(strings(parse_docs(text)), expected);
}
