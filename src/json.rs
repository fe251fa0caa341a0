//! The JSON adapter: JSON values and the layout documents built from them.
use vstd::prelude::*;
use vstd::string::StringExecFns;
use crate::document::{
    Doc, FormatToken, LineMode, docs, empty_doc, flatten, joined, lemma_concat_view, lemma_flatten_plain,
};
use crate::printer::{
    PrintOptions, fits, lemma_render_seq_prefix, newline, print_document, printed, render,
    render_seq, sat,
};

verus! {

broadcast use vstd::std_specs::vec::axiom_vec_index_decreases;

/// A JSON value. Numbers keep their canonical text; object members keep the
/// order in which the parser handed them over.
#[derive(Debug, PartialEq, Eq)]
pub enum JsonValue {
    Null,
    Bool(bool),
    Number(String),
    String(String),
    Array(Vec<JsonValue>),
    Object(Vec<(String, JsonValue)>),
}

#[verifier::external_type_specification]
#[verifier::external_body]
pub struct ExValue(serde_json::Value);

/// What `serde_json::to_string` makes of a string: the JSON string literal,
/// quoted and escaped.
pub uninterp spec fn json_quoted(s: Seq<char>) -> Seq<char>;

/// The value that serde_json reads from a text, or `None` where the text is
/// not JSON.
pub uninterp spec fn parsed_json(s: Seq<char>) -> Option<JsonValue>;

/// Relies on `serde_json::to_string` on a `str`, which quotes and escapes it;
/// serialising a string does not fail.
#[verifier::external_body]
fn quote(s: &str) -> (r: String)
    ensures
        r@ == json_quoted(s@),
{
    serde_json::to_string(s).unwrap_or_default()
}

/// Moves a value parsed by serde_json into a `JsonValue`, variant for variant;
/// numbers by their `Display` text.
#[verifier::external_body]
fn from_serde(v: &serde_json::Value) -> JsonValue {
    match v {
        serde_json::Value::Null => JsonValue::Null,
        serde_json::Value::Bool(b) => JsonValue::Bool(*b),
        serde_json::Value::Number(n) => JsonValue::Number(n.to_string()),
        serde_json::Value::String(s) => JsonValue::String(s.clone()),
        serde_json::Value::Array(a) => JsonValue::Array(a.iter().map(from_serde).collect()),
        serde_json::Value::Object(o) => JsonValue::Object(
            o.iter().map(|(k, x)| (k.clone(), from_serde(x))).collect(),
        ),
    }
}

/// Relies on `serde_json::from_str`, which parses a JSON text into a value
/// tree, or fails on text that is not JSON.
#[verifier::external_body]
fn parse_json(content: &str) -> (r: Option<JsonValue>)
    ensures
        r == parsed_json(content@),
{
    serde_json::from_str::<serde_json::Value>(content).ok().map(|v| from_serde(&v))
}

pub open spec fn null_text() -> Seq<char> {
    seq!['n', 'u', 'l', 'l']
}

pub open spec fn bool_text(b: bool) -> Seq<char> {
    if b {
        seq!['t', 'r', 'u', 'e']
    } else {
        seq!['f', 'a', 'l', 's', 'e']
    }
}

/// The separator between members: a comma, then a space when flat or a
/// newline when broken.
pub open spec fn separator_doc() -> Doc {
    Doc::Concat(seq![Doc::Text(seq![',']), Doc::Line(LineMode::SoftOrSpace)])
}

/// A bracketed, comma-separated group: the body starts with a soft line and
/// is indented, and a trailing comma appears only when the group breaks.
/// Without members, the two brackets side by side.
pub open spec fn bracketed_doc(open: Seq<char>, members: Seq<Doc>, close: Seq<char>) -> Doc {
    if members.len() == 0 {
        Doc::Text(open + close)
    } else {
        bracketed_group(open, members, close)
    }
}

pub open spec fn bracketed_group(open: Seq<char>, members: Seq<Doc>, close: Seq<char>) -> Doc {
    let body = Doc::Concat(
        flatten(
            seq![
                Doc::Line(LineMode::Soft),
                joined(separator_doc(), members),
                Doc::IfBreak(Box::new(Doc::Text(seq![','])), Box::new(empty_doc())),
            ],
        ),
    );
    Doc::Group(
        Box::new(
            Doc::Concat(
                flatten(
                    seq![
                        Doc::Text(open),
                        Doc::Indent(Box::new(body)),
                        Doc::Line(LineMode::Soft),
                        Doc::Text(close),
                    ],
                ),
            ),
        ),
    )
}

/// An object member: the quoted key and a colon, a space, then the value.
pub open spec fn member_doc(quoted_key: Seq<char>, value: Doc) -> Doc {
    Doc::Concat(flatten(seq![Doc::Text(quoted_key + seq![':']), Doc::Space, value]))
}

/// The document of a JSON value.
pub open spec fn json_doc(v: JsonValue) -> Doc
    decreases v, 0nat,
{
    match v {
        JsonValue::Null => Doc::Text(null_text()),
        JsonValue::Bool(b) => Doc::Text(bool_text(b)),
        JsonValue::Number(n) => Doc::Text(n@),
        JsonValue::String(s) => Doc::Text(json_quoted(s@)),
        JsonValue::Array(items) => bracketed_doc(
            seq!['['],
            item_docs(items, items.len() as nat),
            seq![']'],
        ),
        JsonValue::Object(members) => bracketed_doc(
            seq!['{'],
            member_docs(members, members.len() as nat),
            seq!['}'],
        ),
    }
}

/// The documents of the first `n` array items.
pub open spec fn item_docs(items: Vec<JsonValue>, n: nat) -> Seq<Doc>
    decreases items, n,
{
    if n == 0 || n > items.len() {
        Seq::empty()
    } else {
        item_docs(items, (n - 1) as nat).push(json_doc(items[n - 1]))
    }
}

/// The documents of the first `n` object members.
pub open spec fn member_docs(members: Vec<(String, JsonValue)>, n: nat) -> Seq<Doc>
    decreases members, n,
{
    if n == 0 || n > members.len() {
        Seq::empty()
    } else {
        member_docs(members, (n - 1) as nat).push(
            member_doc(json_quoted(members[n - 1].0@), json_doc(members[n - 1].1)),
        )
    }
}

/// The member `"key": value`, from the key already quoted.
pub fn member_token(quoted_key: String, value: FormatToken) -> (r: FormatToken)
    ensures
        r@ == member_doc(quoted_key@, value@),
{
    proof {
        reveal_strlit(":");
    }
    let ghost qk = quoted_key@;
    let key = quoted_key.concat(":");
    proof {
        assert(":"@ =~= seq![':']);
        assert(key@ == qk + seq![':']);
    }
    let parts = vec![FormatToken::string(key.as_str()), FormatToken::space(), value];
    proof {
        assert(parts@.len() == 3);
        assert(parts@[0]@ == Doc::Text(quoted_key@ + seq![':']));
        assert(parts@[2]@ == value@);
        assert(docs(parts@) =~= seq![Doc::Text(quoted_key@ + seq![':']), Doc::Space, value@]);
    }
    FormatToken::concat(parts)
}

/// The group `open`, members separated by commas, `close`; see `bracketed_doc`.
pub fn bracketed(open: &str, members: Vec<FormatToken>, close: &str) -> (r: FormatToken)
    ensures
        r@ == bracketed_doc(open@, docs(members@), close@),
{
    if members.len() == 0 {
        let text = open.to_string().concat(close);
        return FormatToken::string(text.as_str());
    }
    proof {
        reveal_strlit(",");
    }
    let sep_parts = vec![FormatToken::string(","), FormatToken::soft_line_or_space()];
    proof {
        let s = seq![Doc::Text(seq![',']), Doc::Line(LineMode::SoftOrSpace)];
        assert(","@ =~= seq![',']);
        assert(docs(sep_parts@) =~= s);
        lemma_flatten_plain(s);
    }
    let sep = FormatToken::concat(sep_parts);
    proof {
        assert(sep@ == separator_doc());
    }
    let ghost ms = docs(members@);
    let list = FormatToken::join(sep, members);
    let comma = FormatToken::if_break_only(FormatToken::string(","));
    proof {
        assert(","@ =~= seq![',']);
    }
    let body_parts = vec![FormatToken::soft_line(), list, comma];
    proof {
        assert(docs(body_parts@) =~= seq![
            Doc::Line(LineMode::Soft),
            joined(separator_doc(), ms),
            Doc::IfBreak(Box::new(Doc::Text(seq![','])), Box::new(empty_doc())),
        ]);
    }
    let body = FormatToken::concat(body_parts);
    let ghost body_doc = body@;
    let parts = vec![
        FormatToken::string(open),
        FormatToken::indent(body),
        FormatToken::soft_line(),
        FormatToken::string(close),
    ];
    proof {
        assert(docs(parts@) =~= seq![
            Doc::Text(open@),
            Doc::Indent(Box::new(body_doc)),
            Doc::Line(LineMode::Soft),
            Doc::Text(close@),
        ]);
    }
    let inner = FormatToken::concat(parts);
    let r = FormatToken::group(inner);
    proof {
        assert(r@ =~= bracketed_group(open@, ms, close@));
    }
    r
}

/// The layout document of a JSON value: scalars as their canonical text,
/// arrays and objects as bracketed groups.
pub fn format_value(v: &JsonValue) -> (r: FormatToken)
    ensures
        r@ == json_doc(*v),
    decreases v,
{
    match v {
        JsonValue::Null => {
            proof {
                reveal_strlit("null");
                assert("null"@ =~= null_text());
            }
            FormatToken::string("null")
        },
        JsonValue::Bool(b) => {
            proof {
                reveal_strlit("true");
                reveal_strlit("false");
                assert("true"@ =~= bool_text(true));
                assert("false"@ =~= bool_text(false));
            }
            if *b {
                FormatToken::string("true")
            } else {
                FormatToken::string("false")
            }
        },
        JsonValue::Number(n) => FormatToken::string(n.as_str()),
        JsonValue::String(s) => {
            let q = quote(s.as_str());
            FormatToken::string(q.as_str())
        },
        JsonValue::Array(items) => {
            let mut out: Vec<FormatToken> = Vec::new();
            let mut i: usize = 0;
            while i < items.len()
                invariant
                    *v == JsonValue::Array(*items),
                    i <= items.len(),
                    docs(out@) == item_docs(*items, i as nat),
                decreases items.len() - i,
            {
                proof {
                    assert(decreases_to!(*v => v->Array_0));
                    assert(decreases_to!(*items => items[i as int]));
                }
                let ghost prev = out@;
                let d = format_value(&items[i]);
                out.push(d);
                proof {
                    assert(docs(out@) =~= docs(prev).push(json_doc(items[i as int])));
                }
                i = i + 1;
            }
            proof {
                reveal_strlit("[");
                assert("["@ =~= seq!['[']);
                reveal_strlit("]");
                assert("]"@ =~= seq![']']);
            }
            bracketed("[", out, "]")
        },
        JsonValue::Object(members) => {
            let mut out: Vec<FormatToken> = Vec::new();
            let mut i: usize = 0;
            while i < members.len()
                invariant
                    *v == JsonValue::Object(*members),
                    i <= members.len(),
                    docs(out@) == member_docs(*members, i as nat),
                decreases members.len() - i,
            {
                proof {
                    assert(decreases_to!(*v => v->Object_0));
                    assert(decreases_to!(*members => members[i as int]));
                    assert(decreases_to!(members[i as int] => members[i as int].1));
                }
                let ghost prev = out@;
                let key = quote(members[i].0.as_str());
                let d = format_value(&members[i].1);
                let m = member_token(key, d);
                out.push(m);
                proof {
                    assert(docs(out@) =~= docs(prev).push(
                        member_doc(json_quoted(members[i as int].0@), json_doc(members[i as int].1)),
                    ));
                }
                i = i + 1;
            }
            proof {
                reveal_strlit("{");
                assert("{"@ =~= seq!['{']);
                reveal_strlit("}");
                assert("}"@ =~= seq!['}']);
            }
            bracketed("{", out, "}")
        },
    }
}

/// The layout document of a JSON text, or `None` where the text is not JSON.
pub fn json_to_tokens(content: &str) -> (r: Option<FormatToken>)
    ensures
        r is Some <==> parsed_json(content@) is Some,
        r is Some ==> r->0@ == json_doc(parsed_json(content@)->0),
{
    match parse_json(content) {
        Some(v) => Some(format_value(&v)),
        None => None,
    }
}

/// The JSON value rendered within the options' width.
pub fn format_json_value(v: &JsonValue, options: &PrintOptions) -> (r: String)
    ensures
        r@ == printed(json_doc(*v), options.max_width as nat, options.indent_width as nat),
{
    let d = format_value(v);
    print_document(&d, options)
}

/// A JSON text formatted within the options' width, or `None` where the text
/// is not JSON.
pub fn format_json(content: &str, options: &PrintOptions) -> (r: Option<String>)
    ensures
        r is Some <==> parsed_json(content@) is Some,
        r is Some ==> r->0@ == printed(
            json_doc(parsed_json(content@)->0),
            options.max_width as nat,
            options.indent_width as nat,
        ),
{
    match parse_json(content) {
        Some(v) => Some(format_json_value(&v, options)),
        None => None,
    }
}

/// Trailing separator policy: a bracketed group with at least one member
/// renders as the opening bracket, its members, a comma and a line break only
/// when the group breaks, then the closing bracket. The group breaks exactly
/// when its content does not fit flat from the column where it starts (its
/// flat width overflows the maximum width, or it holds a forced break).
pub proof fn lemma_trailing_separator(
    open: Seq<char>,
    members: Seq<Doc>,
    close: Seq<char>,
    col: nat,
    indent: nat,
    outer_broken: bool,
    max_width: nat,
    indent_width: nat,
)
    requires
        members.len() >= 1,
    ensures
        ({
            let g = bracketed_group(open, members, close);
            let broken = !fits(*g->Group_0, col, max_width);
            let items = flatten(seq![Doc::Line(LineMode::Soft), joined(separator_doc(), members)]);
            render(g, col, indent, outer_broken, max_width, indent_width).0 == open + render_seq(
                items,
                items.len(),
                sat(col + open.len()),
                sat(indent + indent_width),
                broken,
                max_width,
                indent_width,
            ).0 + (if broken {
                seq![','] + newline(indent)
            } else {
                Seq::empty()
            }) + close
        }),
{
    let g = bracketed_group(open, members, close);
    let content = *g->Group_0;
    let broken = !fits(content, col, max_width);
    let w = max_width;
    let iw = indent_width;
    let ifb = Doc::IfBreak(Box::new(Doc::Text(seq![','])), Box::new(empty_doc()));
    let head = seq![Doc::Line(LineMode::Soft), joined(separator_doc(), members)];
    let items = flatten(head);
    let three = seq![Doc::Line(LineMode::Soft), joined(separator_doc(), members), ifb];
    assert(three.drop_last() =~= head);
    let body_items = flatten(three);
    assert(body_items == items + seq![ifb]);
    let body = Doc::Concat(body_items);
    let ind2 = sat(indent + iw);
    let c1 = sat(col + open.len());
    assert(body_items.take(items.len() as int) =~= items.take(items.len() as int));
    lemma_render_seq_prefix(body_items, items, items.len(), c1, ind2, broken, w, iw);
    let (a, ca) = render_seq(items, items.len(), c1, ind2, broken, w, iw);
    let comma = if broken { seq![','] } else { Seq::<char>::empty() };
    assert(render_seq(Seq::<Doc>::empty(), 0, ca, ind2, broken, w, iw).0 == Seq::<char>::empty());
    if broken {
        assert(render(Doc::Text(seq![',']), ca, ind2, broken, w, iw).0 == seq![',']);
    } else {
        let e = empty_doc();
        assert(render(e, ca, ind2, broken, w, iw) == render_seq(Seq::<Doc>::empty(), 0, ca, ind2, broken, w, iw));
    }
    assert(render(ifb, ca, ind2, broken, w, iw).0 == comma);
    assert(body_items.len() == items.len() + 1);
    assert(body_items[items.len() as int] == ifb);
    assert(render_seq(body_items, items.len(), c1, ind2, broken, w, iw) == (a, ca));
    assert(render(body, c1, ind2, broken, w, iw) == render_seq(body_items, body_items.len(), c1, ind2, broken, w, iw));
    assert(render(body, c1, ind2, broken, w, iw).0 == a + comma);
    let outer = seq![
        Doc::Text(open),
        Doc::Indent(Box::new(body)),
        Doc::Line(LineMode::Soft),
        Doc::Text(close),
    ];
    lemma_flatten_plain(outer);
    assert(content == Doc::Concat(outer));
    let r1 = render_seq(outer, 1, col, indent, broken, w, iw);
    assert(outer.len() == 4);
    assert(render_seq(outer, 0, col, indent, broken, w, iw) == (Seq::<char>::empty(), col));
    assert(render(outer[0], col, indent, broken, w, iw) == (open, c1));
    assert(outer[0] == Doc::Text(open));
    assert(r1.0 == Seq::<char>::empty() + open);
    assert(r1.0 =~= open);
    assert(r1.1 == c1);
    let r2 = render_seq(outer, 2, col, indent, broken, w, iw);
    assert(outer[1] == Doc::Indent(Box::new(body)));
    assert(render(outer[1], c1, indent, broken, w, iw).0 == a + comma);
    assert(r2.0 =~= open + a + comma);
    let r3 = render_seq(outer, 3, col, indent, broken, w, iw);
    let brk = if broken { newline(indent) } else { Seq::<char>::empty() };
    assert(outer[2] == Doc::Line(LineMode::Soft));
    assert(render(outer[2], r2.1, indent, broken, w, iw).0 == brk);
    assert(r3.0 =~= open + a + comma + brk);
    let r4 = render_seq(outer, 4, col, indent, broken, w, iw);
    assert(outer[3] == Doc::Text(close));
    assert(render(outer[3], r3.1, indent, broken, w, iw).0 == close);
    assert(r4.0 =~= open + a + comma + brk + close);
    assert(g == Doc::Group(Box::new(content)));
    assert(render(g, col, indent, outer_broken, w, iw) == render(content, col, indent, broken, w, iw));
    assert(render(content, col, indent, broken, w, iw) == render_seq(outer, outer.len(), col, indent, broken, w, iw));
    assert(render(g, col, indent, outer_broken, w, iw).0 == r4.0);
    assert(comma + brk =~= (if broken { seq![','] + newline(indent) } else { Seq::<char>::empty() }));
    assert(open + a + comma + brk + close =~= open + a + (comma + brk) + close);
}

} // verus!
