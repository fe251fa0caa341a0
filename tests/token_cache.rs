use formatter::token_cache::{SyntaxKind, TokensCache};
use rowan::GreenTokenData;
use std::borrow::Borrow;

#[test]
fn it_returns_a_token_with_the_specified_kind_and_text() {
    let mut cache = TokensCache::default();

    let one = cache.get(SyntaxKind::NumberToken, "1");

    assert_eq!("1", one.text());
    assert_eq!(rowan::SyntaxKind(SyntaxKind::NumberToken.raw()), one.kind());
}

#[test]
fn it_returns_the_same_green_nodes_for_identical_text_and_kind() {
    let mut cache = TokensCache::default();

    let indent = cache.get(SyntaxKind::Whitespace, "  ");
    let indent_2 = cache.get(SyntaxKind::Whitespace, "  ");

    assert_eq!(indent, indent_2);

    let indent1_data: &GreenTokenData = indent.borrow();
    let indent2_data: &GreenTokenData = indent_2.borrow();

    assert!(std::ptr::eq(indent1_data, indent2_data), "Point to the same green token data");
}

#[test]
fn it_returns_different_tokens_if_text_differs() {
    let mut cache = TokensCache::default();

    let one = cache.get(SyntaxKind::NumberToken, "1");
    let two = cache.get(SyntaxKind::NumberToken, "2");

    assert_eq!("1", one.text());
    assert_eq!("2", two.text());
}

#[test]
fn it_returns_different_tokens_if_the_kind_differs() {
    let mut cache = TokensCache::default();

    let whitespace = cache.get(SyntaxKind::Whitespace, " ");
    let string = cache.get(SyntaxKind::StringToken, " ");

    assert_eq!(rowan::SyntaxKind(SyntaxKind::Whitespace.raw()), whitespace.kind());
    assert_eq!(rowan::SyntaxKind(SyntaxKind::StringToken.raw()), string.kind());
}

#[test]
fn distinct_requests_get_distinct_allocations() {
    let mut cache = TokensCache::new();
    let a = cache.get(SyntaxKind::NumberToken, "1");
    let b = cache.get(SyntaxKind::NumberToken, "2");
    let a2 = cache.get(SyntaxKind::NumberToken, "1");
    let da: &GreenTokenData = a.borrow();
    let db: &GreenTokenData = b.borrow();
    let da2: &GreenTokenData = a2.borrow();
    assert!(!std::ptr::eq(da, db));
    assert!(std::ptr::eq(da, da2));
    assert_eq!("1", a.text());
    assert_eq!("2", b.text());
}
