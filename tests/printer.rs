use formatter::document::FormatToken;
use formatter::printer::{print_document, PrintOptions};

fn print(d: &FormatToken, max_width: usize) -> String {
    print_document(d, &PrintOptions { max_width, indent_width: 4 })
}

fn words(n: usize) -> FormatToken {
    let items: Vec<FormatToken> = (0..n).map(|i| FormatToken::string(&format!("w{}", i))).collect();
    FormatToken::group(FormatToken::join(FormatToken::soft_line_or_space(), items))
}

fn count_newlines(s: &str) -> usize {
    s.chars().filter(|c| *c == '\n').count()
}

#[test]
fn join_of_nothing_and_of_one() {
    assert_eq!(FormatToken::join(FormatToken::Space, vec![]), FormatToken::Concat(vec![]));
    assert_eq!(
        FormatToken::join(FormatToken::Space, vec![FormatToken::string("a")]),
        FormatToken::string("a")
    );
    assert_eq!(
        FormatToken::join(FormatToken::Space, vec![FormatToken::string("a"), FormatToken::string("b")]),
        FormatToken::Concat(vec![FormatToken::string("a"), FormatToken::Space, FormatToken::string("b")])
    );
}

#[test]
fn concat_splices_nested_concatenations() {
    let inner = FormatToken::concat(vec![FormatToken::string("a"), FormatToken::string("b")]);
    let outer = FormatToken::concat(vec![inner, FormatToken::Space]);
    assert_eq!(
        outer,
        FormatToken::Concat(vec![FormatToken::string("a"), FormatToken::string("b"), FormatToken::Space])
    );
}

#[test]
fn group_flat_or_broken() {
    assert_eq!(print(&words(3), 80), "w0 w1 w2");
    assert_eq!(print(&words(3), 3), "w0\nw1\nw2");
}

#[test]
fn hard_line_forces_group_to_break() {
    let d = FormatToken::group(FormatToken::concat(vec![
        FormatToken::string("a"),
        FormatToken::soft_line_or_space(),
        FormatToken::string("b"),
        FormatToken::hard_line(),
        FormatToken::string("c"),
    ]));
    assert_eq!(print(&d, 80), "a\nb\nc");
}

#[test]
fn literal_line_has_no_indentation() {
    let d = FormatToken::indent(FormatToken::concat(vec![
        FormatToken::string("a"),
        FormatToken::hard_line(),
        FormatToken::string("b"),
        FormatToken::literal_line(),
        FormatToken::string("c"),
    ]));
    assert_eq!(print(&d, 80), "a\n    b\nc");
}

#[test]
fn if_break_outside_group_is_flat() {
    let d = FormatToken::if_break(FormatToken::string("broken"), FormatToken::string("flat"));
    assert_eq!(print(&d, 0), "flat");
}

#[test]
fn overlong_text_overflows() {
    let d = FormatToken::group(FormatToken::concat(vec![
        FormatToken::string("abcdefghij"),
        FormatToken::soft_line(),
        FormatToken::string("k"),
    ]));
    assert_eq!(print(&d, 3), "abcdefghij\nk");
}

#[test]
fn width_counts_characters() {
    let d = FormatToken::group(FormatToken::concat(vec![
        FormatToken::string("ééé"),
        FormatToken::soft_line_or_space(),
        FormatToken::string("x"),
    ]));
    assert_eq!(print(&d, 5), "ééé x");
}

#[test]
fn narrower_width_never_fewer_breaks() {
    let d = words(6);
    let mut last = 0;
    for w in (0..30).rev() {
        let n = count_newlines(&print(&d, w));
        assert!(n >= last);
        last = n;
    }
}
