use fp::tokenizer::{tokenize, Step, Stream};

fn chunks(parts: &[&str]) -> Vec<Vec<u8>> {
    parts.iter().map(|p| p.as_bytes().to_vec()).collect()
}

fn texts(tokens: &[Vec<u8>]) -> Vec<String> {
    tokens.iter().map(|t| String::from_utf8(t.clone()).unwrap()).collect()
}

#[test]
fn splits_lines() {
    let r = tokenize("\n", &chunks(&["a\nbb\nccc"])).unwrap();
    assert_eq!(texts(&r), vec!["a", "bb", "ccc"]);
}

#[test]
fn trailing_delimiter_makes_no_empty_token() {
    let r = tokenize("\n", &chunks(&["1\n2\n3\n"])).unwrap();
    assert_eq!(texts(&r), vec!["1", "2", "3"]);
}

#[test]
fn leading_delimiter_gives_empty_token() {
    let r = tokenize(" ", &chunks(&[" a b"])).unwrap();
    assert_eq!(texts(&r), vec!["", "a", "b"]);
}

#[test]
fn delimiter_split_across_chunks() {
    let r = tokenize("<>", &chunks(&["ab<", ">cd<", "", ">", "e"])).unwrap();
    assert_eq!(texts(&r), vec!["ab", "cd", "e"]);
}

#[test]
fn chunking_does_not_change_tokens() {
    let whole = tokenize("::", &chunks(&["x::yy::::z:"])).unwrap();
    let bytewise: Vec<&str> = vec!["x", ":", ":", "y", "y", ":", ":", ":", ":", "z", ":"];
    let pieces = tokenize("::", &chunks(&bytewise)).unwrap();
    assert_eq!(whole, pieces);
    assert_eq!(texts(&whole), vec!["x", "yy", "", "z:"]);
}

#[test]
fn delimiter_longer_than_input() {
    let r = tokenize("abcdef", &chunks(&["abc"])).unwrap();
    assert_eq!(texts(&r), vec!["abc"]);
}

#[test]
fn empty_input_has_no_tokens() {
    let r = tokenize("\n", &chunks(&[])).unwrap();
    assert!(r.is_empty());
}

#[test]
fn empty_delimiter_is_rejected() {
    assert!(tokenize("", &chunks(&["abc"])).is_none());
    assert!(Stream::new("").is_none());
}

#[test]
fn round_trip_rejoins_input() {
    for (input, ends) in [("a,b,,c", false), ("a,b,", true), (",", true), ("abc", false)] {
        let r = tokenize(",", &chunks(&[input])).unwrap();
        let mut joined = texts(&r).join(",");
        if ends {
            joined.push(',');
        }
        assert_eq!(joined, input);
    }
}

#[test]
fn stream_steps_through_input() {
    let mut s = Stream::new("\n").unwrap();
    assert!(matches!(s.next(), Step::NeedInput));
    s.buffer_fill(b"one\ntw");
    match s.next() {
        Step::Token(t) => assert_eq!(t, b"one".to_vec()),
        _ => panic!("expected a token"),
    }
    assert!(matches!(s.next(), Step::NeedInput));
    s.buffer_fill(b"o");
    assert!(matches!(s.next(), Step::NeedInput));
    s.end_of_input();
    match s.next() {
        Step::Token(t) => assert_eq!(t, b"two".to_vec()),
        _ => panic!("expected the final token"),
    }
    assert!(matches!(s.next(), Step::End));
    assert!(matches!(s.next(), Step::End));
}

#[test]
fn exhausted_empty_stream_ends_at_once() {
    let mut s = Stream::new("\n").unwrap();
    s.end_of_input();
    assert!(matches!(s.next(), Step::End));
}
