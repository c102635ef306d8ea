use tantivy::{Index, SimpleTokenizer, TextAnalyzer, TokenStream, TokenizerManager};

#[test]
fn whitespace_tokens_carry_offsets_and_positions() {
    let analyzer = TextAnalyzer::from(SimpleTokenizer);
    let mut stream = analyzer.token_stream("hello  happy\ttax payer");

    assert!(stream.advance());
    let token = stream.token();
    assert_eq!(token.text, "hello");
    assert_eq!(token.offset_from, 0);
    assert_eq!(token.offset_to, 5);
    assert_eq!(token.position, 0);
    assert_eq!(token.position_length, 1);

    assert!(stream.advance());
    let token = stream.token();
    assert_eq!(token.text, "happy");
    assert_eq!(token.offset_from, 7);
    assert_eq!(token.offset_to, 12);
    assert_eq!(token.position, 1);

    assert!(stream.advance());
    let token = stream.token();
    assert_eq!(token.text, "tax");
    assert_eq!(token.offset_from, 13);
    assert_eq!(token.offset_to, 16);
    assert_eq!(token.position, 2);

    assert!(stream.advance());
    let token = stream.token();
    assert_eq!(token.text, "payer");
    assert_eq!(token.offset_from, 17);
    assert_eq!(token.offset_to, 22);
    assert_eq!(token.position, 3);

    assert!(!stream.advance());
}

#[test]
fn tokenizing_blank_text_yields_no_tokens() {
    let analyzer = TextAnalyzer::new(SimpleTokenizer);
    let mut stream = analyzer.token_stream("  \t \n ");
    assert!(!stream.advance());
    let mut empty_stream = analyzer.token_stream("");
    assert!(!empty_stream.advance());
}

#[test]
fn token_stream_next_walks_all_tokens() {
    let analyzer = TextAnalyzer::new(SimpleTokenizer);
    let mut stream = analyzer.token_stream("a bc def");
    let texts: Vec<String> = {
        let mut collected: Vec<String> = Vec::new();
        while let Some(token) = stream.next() {
            collected.push(token.text);
        }
        collected
    };
    assert_eq!(texts, vec!["a", "bc", "def"]);
}

#[test]
fn manager_starts_with_default_analyzer() {
    let manager = TokenizerManager::default();
    assert!(manager.get("default").is_some());
    assert!(manager.get("en_stem").is_none());
}

#[test]
fn manager_register_makes_analyzer_available() {
    let mut manager = TokenizerManager::default();
    assert!(manager.get("whitespace").is_none());
    manager.register("whitespace", TextAnalyzer::from(SimpleTokenizer));
    assert!(manager.get("whitespace").is_some());
    // registering again under the same name still leaves one entry to find
    manager.register("whitespace", TextAnalyzer::from(SimpleTokenizer));
    assert!(manager.get("whitespace").is_some());
}

#[test]
fn index_in_ram_comes_up_empty() {
    let index = Index::create_in_ram();
    let _another = Index::create_in_ram();
    drop(index);
}

#[test]
fn default_token_is_a_placeholder() {
    let token = tantivy::Token::default();
    assert_eq!(token.offset_from, 0);
    assert_eq!(token.offset_to, 0);
    assert_eq!(token.position, usize::MAX);
    assert_eq!(token.text, "");
    assert_eq!(token.position_length, 1);
}
