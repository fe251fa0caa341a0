//! The layout document: an algebra of printable tokens and its constructors.
use vstd::prelude::*;

verus! {

broadcast use vstd::std_specs::vec::axiom_vec_index_decreases;

/// How a line break point behaves.
#[derive(Clone, Copy, Debug, PartialEq, Eq, Structural)]
pub enum LineMode {
    /// Nothing when flat, a newline and indentation when broken.
    Soft,
    /// A space when flat, a newline and indentation when broken.
    SoftOrSpace,
    /// Always a newline and indentation; forces the enclosing group to break.
    Hard,
    /// Always a bare newline without indentation; forces the enclosing group to break.
    Literal,
}

/// A layout document.
#[derive(Debug, PartialEq, Eq)]
pub enum FormatToken {
    Text(String),
    Space,
    Line(LineMode),
    Indent(Box<FormatToken>),
    Group(Box<FormatToken>),
    /// Broken variant first, flat variant second.
    IfBreak(Box<FormatToken>, Box<FormatToken>),
    Concat(Vec<FormatToken>),
}

/// The mathematical value of a layout document.
pub enum Doc {
    Text(Seq<char>),
    Space,
    Line(LineMode),
    Indent(Box<Doc>),
    Group(Box<Doc>),
    IfBreak(Box<Doc>, Box<Doc>),
    Concat(Seq<Doc>),
}

pub open spec fn doc_of(t: FormatToken) -> Doc
    decreases t, 0nat,
{
    match t {
        FormatToken::Text(s) => Doc::Text(s@),
        FormatToken::Space => Doc::Space,
        FormatToken::Line(m) => Doc::Line(m),
        FormatToken::Indent(c) => Doc::Indent(Box::new(doc_of(*c))),
        FormatToken::Group(c) => Doc::Group(Box::new(doc_of(*c))),
        FormatToken::IfBreak(b, f) => Doc::IfBreak(Box::new(doc_of(*b)), Box::new(doc_of(*f))),
        FormatToken::Concat(v) => Doc::Concat(docs_prefix(v, v.len() as nat)),
    }
}

/// The documents of the first `n` items of `v`.
pub open spec fn docs_prefix(v: Vec<FormatToken>, n: nat) -> Seq<Doc>
    decreases v, n,
{
    if n == 0 || n > v.len() {
        Seq::empty()
    } else {
        docs_prefix(v, (n - 1) as nat).push(doc_of(v[n - 1]))
    }
}

impl View for FormatToken {
    type V = Doc;

    open spec fn view(&self) -> Doc {
        doc_of(*self)
    }
}

/// The documents of a sequence of tokens.
pub open spec fn docs(s: Seq<FormatToken>) -> Seq<Doc> {
    s.map_values(|t: FormatToken| t@)
}

pub proof fn lemma_docs_prefix(v: Vec<FormatToken>, n: nat)
    requires
        n <= v.len(),
    ensures
        docs_prefix(v, n) == docs(v@.take(n as int)),
    decreases n,
{
    if n > 0 {
        lemma_docs_prefix(v, (n - 1) as nat);
    }
    assert(docs_prefix(v, n) =~= docs(v@.take(n as int)));
}

pub proof fn lemma_not_concat_view(t: FormatToken)
    requires
        !(t is Concat),
    ensures
        !(t@ is Concat),
{
}

pub proof fn lemma_concat_view(v: Vec<FormatToken>)
    ensures
        FormatToken::Concat(v)@ == Doc::Concat(docs(v@)),
{
    lemma_docs_prefix(v, v.len() as nat);
    assert(v@.take(v.len() as int) =~= v@);
}

impl FormatToken {
    /// A copy of the token with the same document.
    pub fn duplicate(&self) -> (r: FormatToken)
        ensures
            r@ == self@,
        decreases self,
    {
        match self {
            FormatToken::Text(s) => FormatToken::Text(s.clone()),
            FormatToken::Space => FormatToken::Space,
            FormatToken::Line(m) => FormatToken::Line(*m),
            FormatToken::Indent(c) => FormatToken::Indent(Box::new(c.duplicate())),
            FormatToken::Group(c) => FormatToken::Group(Box::new(c.duplicate())),
            FormatToken::IfBreak(b, f) => FormatToken::IfBreak(
                Box::new(b.duplicate()),
                Box::new(f.duplicate()),
            ),
            FormatToken::Concat(v) => {
                let mut out: Vec<FormatToken> = Vec::new();
                let mut i: usize = 0;
                while i < v.len()
                    invariant
                        i <= v.len(),
                        *self == FormatToken::Concat(*v),
                        docs(out@) == docs(v@.take(i as int)),
                    decreases v.len() - i,
                {
                    proof {
                        assert(decreases_to!(*self => self->Concat_0));
                        assert(decreases_to!(*v => v[i as int]));
                        assert(decreases_to!(*self => v[i as int]));
                    }
                    let c = v[i].duplicate();
                    let ghost prev = out@;
                    out.push(c);
                    proof {
                        assert(v@.take(i + 1) =~= v@.take(i as int).push(v@[i as int]));
                        assert(docs(out@) =~= docs(prev).push(c@));
                        assert(docs(v@.take(i + 1)) =~= docs(v@.take(i as int)).push(v@[i as int]@));
                    }
                    i = i + 1;
                }
                proof {
                    lemma_concat_view(*v);
                    lemma_concat_view(out);
                    assert(v@.take(v.len() as int) =~= v@);
                }
                FormatToken::Concat(out)
            },
        }
    }
}

/// The items that a document contributes when placed in a concatenation:
/// the members of a concatenation, or the document itself.
pub open spec fn spread(d: Doc) -> Seq<Doc> {
    match d {
        Doc::Concat(s) => s,
        _ => seq![d],
    }
}

/// A sequence with every concatenation in it replaced by its members.
pub open spec fn flatten(s: Seq<Doc>) -> Seq<Doc>
    decreases s.len(),
{
    if s.len() == 0 {
        Seq::empty()
    } else {
        flatten(s.drop_last()) + spread(s.last())
    }
}

/// `items` with `sep` between every adjacent pair.
pub open spec fn interleave(sep: Doc, items: Seq<Doc>) -> Seq<Doc>
    decreases items.len(),
{
    if items.len() <= 1 {
        items
    } else {
        interleave(sep, items.drop_last()) + seq![sep, items.last()]
    }
}

/// The document that `join` builds.
pub open spec fn joined(sep: Doc, items: Seq<Doc>) -> Doc {
    if items.len() == 0 {
        Doc::Concat(Seq::empty())
    } else if items.len() == 1 {
        items[0]
    } else {
        Doc::Concat(flatten(interleave(sep, items)))
    }
}

/// Flattening leaves a sequence without concatenations as it is.
pub proof fn lemma_flatten_plain(s: Seq<Doc>)
    requires
        forall|i: int| 0 <= i < s.len() ==> !(#[trigger] s[i] is Concat),
    ensures
        flatten(s) == s,
    decreases s.len(),
{
    if s.len() > 0 {
        lemma_flatten_plain(s.drop_last());
        assert(flatten(s) =~= s);
    }
}

pub open spec fn empty_doc() -> Doc {
    Doc::Concat(Seq::empty())
}

impl FormatToken {
    /// Literal text.
    pub fn string(s: &str) -> (r: FormatToken)
        ensures
            r@ == Doc::Text(s@),
    {
        FormatToken::Text(s.to_string())
    }

    /// A single space.
    pub fn space() -> (r: FormatToken)
        ensures
            r@ == Doc::Space,
    {
        FormatToken::Space
    }

    pub fn soft_line() -> (r: FormatToken)
        ensures
            r@ == Doc::Line(LineMode::Soft),
    {
        FormatToken::Line(LineMode::Soft)
    }

    pub fn soft_line_or_space() -> (r: FormatToken)
        ensures
            r@ == Doc::Line(LineMode::SoftOrSpace),
    {
        FormatToken::Line(LineMode::SoftOrSpace)
    }

    pub fn hard_line() -> (r: FormatToken)
        ensures
            r@ == Doc::Line(LineMode::Hard),
    {
        FormatToken::Line(LineMode::Hard)
    }

    pub fn literal_line() -> (r: FormatToken)
        ensures
            r@ == Doc::Line(LineMode::Literal),
    {
        FormatToken::Line(LineMode::Literal)
    }

    pub fn group(child: FormatToken) -> (r: FormatToken)
        ensures
            r@ == Doc::Group(Box::new(child@)),
    {
        FormatToken::Group(Box::new(child))
    }

    pub fn indent(child: FormatToken) -> (r: FormatToken)
        ensures
            r@ == Doc::Indent(Box::new(child@)),
    {
        FormatToken::Indent(Box::new(child))
    }

    pub fn if_break(broken: FormatToken, flat: FormatToken) -> (r: FormatToken)
        ensures
            r@ == Doc::IfBreak(Box::new(broken@), Box::new(flat@)),
    {
        FormatToken::IfBreak(Box::new(broken), Box::new(flat))
    }

    /// Content that appears only when the enclosing group breaks.
    pub fn if_break_only(broken: FormatToken) -> (r: FormatToken)
        ensures
            r@ == Doc::IfBreak(Box::new(broken@), Box::new(empty_doc())),
    {
        let e: Vec<FormatToken> = Vec::new();
        proof {
            lemma_concat_view(e);
            assert(docs(e@) =~= Seq::<Doc>::empty());
        }
        let flat = FormatToken::Concat(e);
        FormatToken::IfBreak(Box::new(broken), Box::new(flat))
    }

    /// The concatenation of `items`, with nested concatenations among them
    /// spliced in.
    pub fn concat(items: Vec<FormatToken>) -> (r: FormatToken)
        ensures
            r@ == Doc::Concat(flatten(docs(items@))),
    {
        let mut out: Vec<FormatToken> = Vec::new();
        let mut i: usize = 0;
        while i < items.len()
            invariant
                i <= items.len(),
                docs(out@) == flatten(docs(items@.take(i as int))),
            decreases items.len() - i,
        {
            let ghost prev = out@;
            proof {
                assert(docs(items@.take(i + 1)).drop_last() =~= docs(items@.take(i as int)));
                assert(docs(items@.take(i + 1)).last() == items@[i as int]@);
            }
            match &items[i] {
                FormatToken::Concat(inner) => {
                    proof {
                        lemma_concat_view(*inner);
                    }
                    let mut j: usize = 0;
                    while j < inner.len()
                        invariant
                            j <= inner.len(),
                            docs(out@) == docs(prev) + docs(inner@.take(j as int)),
                        decreases inner.len() - j,
                    {
                        let ghost before = out@;
                        out.push(inner[j].duplicate());
                        proof {
                            assert(inner@.take(j + 1) =~= inner@.take(j as int).push(inner@[j as int]));
                            assert(docs(out@) =~= docs(before).push(inner@[j as int]@));
                            assert(docs(inner@.take(j + 1)) =~= docs(inner@.take(j as int)).push(inner@[j as int]@));
                        }
                        j = j + 1;
                    }
                    proof {
                        assert(inner@.take(inner.len() as int) =~= inner@);
                    }
                },
                other => {
                    out.push(other.duplicate());
                    proof {
                        assert(spread(other@) == seq![other@]) by {
                            lemma_not_concat_view(*other);
                        }
                        assert(docs(out@) =~= docs(prev) + seq![other@]);
                    }
                },
            }
            i = i + 1;
        }
        proof {
            assert(items@.take(items.len() as int) =~= items@);
            lemma_concat_view(out);
        }
        FormatToken::Concat(out)
    }

    /// `items` with `separator` between every adjacent pair; nothing for no
    /// items, the item itself for one.
    pub fn join(separator: FormatToken, items: Vec<FormatToken>) -> (r: FormatToken)
        ensures
            r@ == joined(separator@, docs(items@)),
    {
        let mut items = items;
        let n = items.len();
        if n == 0 {
            let e: Vec<FormatToken> = Vec::new();
            proof {
                lemma_concat_view(e);
                assert(docs(e@) =~= Seq::<Doc>::empty());
            }
            return FormatToken::Concat(e);
        }
        if n == 1 {
            let r = items.pop().unwrap();
            return r;
        }
        let mut parts: Vec<FormatToken> = Vec::new();
        let mut i: usize = 0;
        while i < n
            invariant
                n == items.len(),
                n >= 2,
                i <= n,
                i == 0 ==> parts@.len() == 0,
                i > 0 ==> docs(parts@) == interleave(separator@, docs(items@.take(i as int))),
            decreases n - i,
        {
            let ghost prev = parts@;
            if i > 0 {
                parts.push(separator.duplicate());
            }
            parts.push(items[i].duplicate());
            proof {
                assert(docs(items@.take(i + 1)).drop_last() =~= docs(items@.take(i as int)));
                if i == 0 {
                    assert(docs(parts@) =~= docs(items@.take(1)));
                } else {
                    assert(docs(parts@) =~= docs(prev) + seq![separator@, items@[i as int]@]);
                }
            }
            i = i + 1;
        }
        proof {
            assert(items@.take(n as int) =~= items@);
        }
        FormatToken::concat(parts)
    }
}

} // verus!
