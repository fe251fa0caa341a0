//! Rendering a layout document into text within a maximum line width.
use vstd::prelude::*;
use vstd::string::StrSliceExecFns;
use vstd::string::StringExecFns;
use crate::document::{Doc, FormatToken, LineMode, docs, lemma_concat_view};

verus! {

broadcast use vstd::std_specs::vec::axiom_vec_index_decreases;

/// Whether the document holds a hard or literal line that is rendered when
/// flat; such a line forces the enclosing group to break.
pub open spec fn forced(d: Doc) -> bool
    decreases d, 0nat,
{
    match d {
        Doc::Text(_) => false,
        Doc::Space => false,
        Doc::Line(m) => m == LineMode::Hard || m == LineMode::Literal,
        Doc::Indent(c) => forced(*c),
        Doc::Group(c) => forced(*c),
        Doc::IfBreak(_, f) => forced(*f),
        Doc::Concat(s) => any_forced(s, s.len()),
    }
}

pub open spec fn any_forced(s: Seq<Doc>, n: nat) -> bool
    decreases s, n,
{
    if n == 0 || n > s.len() {
        false
    } else {
        any_forced(s, (n - 1) as nat) || forced(s[n - 1])
    }
}

/// The width of the document rendered flat, on one line.
pub open spec fn flat_width(d: Doc) -> nat
    decreases d, 0nat,
{
    match d {
        Doc::Text(s) => s.len(),
        Doc::Space => 1,
        Doc::Line(m) => if m == LineMode::SoftOrSpace { 1 } else { 0 },
        Doc::Indent(c) => flat_width(*c),
        Doc::Group(c) => flat_width(*c),
        Doc::IfBreak(_, f) => flat_width(*f),
        Doc::Concat(s) => sum_flat_width(s, s.len()),
    }
}

pub open spec fn sum_flat_width(s: Seq<Doc>, n: nat) -> nat
    decreases s, n,
{
    if n == 0 || n > s.len() {
        0
    } else {
        sum_flat_width(s, (n - 1) as nat) + flat_width(s[n - 1])
    }
}

/// The fitting test of a group whose content is `d`, starting at column `col`.
pub open spec fn fits(d: Doc, col: nat, max_width: nat) -> bool {
    !forced(d) && col + flat_width(d) <= max_width
}

/// Columns saturate at the largest `usize`.
pub open spec fn sat(x: nat) -> nat {
    if x > usize::MAX {
        usize::MAX as nat
    } else {
        x
    }
}

pub open spec fn spaces(n: nat) -> Seq<char> {
    Seq::new(n, |_i: int| ' ')
}

/// A newline followed by `indent` columns of indentation.
pub open spec fn newline(indent: nat) -> Seq<char> {
    seq!['\n'] + spaces(indent)
}

/// The text of `d` and the column after it, rendered from column `col` with
/// `indent` columns of indentation; `broken` tells whether the nearest
/// enclosing group broke.
pub open spec fn render(
    d: Doc,
    col: nat,
    indent: nat,
    broken: bool,
    max_width: nat,
    indent_width: nat,
) -> (Seq<char>, nat)
    decreases d, 0nat,
{
    match d {
        Doc::Text(s) => (s, sat(col + s.len())),
        Doc::Space => (seq![' '], sat(col + 1)),
        Doc::Line(m) => {
            if m == LineMode::Literal {
                (seq!['\n'], 0)
            } else if m == LineMode::Hard || broken {
                (newline(indent), indent)
            } else if m == LineMode::SoftOrSpace {
                (seq![' '], sat(col + 1))
            } else {
                (Seq::empty(), col)
            }
        },
        Doc::Indent(c) => render(*c, col, sat(indent + indent_width), broken, max_width, indent_width),
        Doc::Group(c) => render(*c, col, indent, !fits(*c, col, max_width), max_width, indent_width),
        Doc::IfBreak(b, f) => if broken {
            render(*b, col, indent, broken, max_width, indent_width)
        } else {
            render(*f, col, indent, broken, max_width, indent_width)
        },
        Doc::Concat(s) => render_seq(s, s.len(), col, indent, broken, max_width, indent_width),
    }
}

/// The first `n` documents of `s` rendered one after the other.
pub open spec fn render_seq(
    s: Seq<Doc>,
    n: nat,
    col: nat,
    indent: nat,
    broken: bool,
    max_width: nat,
    indent_width: nat,
) -> (Seq<char>, nat)
    decreases s, n,
{
    if n == 0 || n > s.len() {
        (Seq::empty(), col)
    } else {
        let (a, c) = render_seq(s, (n - 1) as nat, col, indent, broken, max_width, indent_width);
        let (b, e) = render(s[n - 1], c, indent, broken, max_width, indent_width);
        (a + b, e)
    }
}

/// The text of a document rendered from the start of a line, outside any group.
pub open spec fn printed(d: Doc, max_width: nat, indent_width: nat) -> Seq<char> {
    render(d, 0, 0, false, max_width, indent_width).0
}

/// Rendering the first `n` documents depends on those documents alone.
pub proof fn lemma_render_seq_prefix(
    s: Seq<Doc>,
    t: Seq<Doc>,
    n: nat,
    col: nat,
    indent: nat,
    broken: bool,
    max_width: nat,
    indent_width: nat,
)
    requires
        n <= s.len(),
        n <= t.len(),
        s.take(n as int) == t.take(n as int),
    ensures
        render_seq(s, n, col, indent, broken, max_width, indent_width) == render_seq(
            t,
            n,
            col,
            indent,
            broken,
            max_width,
            indent_width,
        ),
    decreases n,
{
    if n > 0 {
        assert(s.take(n - 1) =~= s.take(n as int).take(n - 1));
        assert(t.take(n - 1) =~= t.take(n as int).take(n - 1));
        assert(s[n - 1] == s.take(n as int)[n - 1]);
        assert(t[n - 1] == t.take(n as int)[n - 1]);
        lemma_render_seq_prefix(s, t, (n - 1) as nat, col, indent, broken, max_width, indent_width);
    }
}

/// The number of line breaks in a text.
pub open spec fn line_breaks(s: Seq<char>) -> nat
    decreases s.len(),
{
    if s.len() == 0 {
        0
    } else {
        line_breaks(s.drop_last()) + if s.last() == '\n' {
            1nat
        } else {
            0nat
        }
    }
}

pub open spec fn single_line(s: Seq<char>) -> bool {
    forall|i: int| 0 <= i < s.len() ==> s[i] != '\n'
}

/// A document without groups whose texts hold no line break.
pub open spec fn ungrouped(d: Doc) -> bool
    decreases d, 0nat,
{
    match d {
        Doc::Text(s) => single_line(s),
        Doc::Space => true,
        Doc::Line(_) => true,
        Doc::Indent(c) => ungrouped(*c),
        Doc::Group(_) => false,
        Doc::IfBreak(b, f) => ungrouped(*b) && ungrouped(*f),
        Doc::Concat(s) => all_ungrouped(s, s.len()),
    }
}

pub open spec fn all_ungrouped(s: Seq<Doc>, n: nat) -> bool
    decreases s, n,
{
    if n == 0 || n > s.len() {
        true
    } else {
        all_ungrouped(s, (n - 1) as nat) && ungrouped(s[n - 1])
    }
}

proof fn lemma_single_line_count(s: Seq<char>)
    requires
        single_line(s),
    ensures
        line_breaks(s) == 0,
    decreases s.len(),
{
    if s.len() > 0 {
        lemma_single_line_count(s.drop_last());
    }
}

/// Rendered flat, a document without groups or forced breaks stays on one line.
proof fn lemma_flat_single_line(d: Doc, col: nat, indent: nat, w: nat, iw: nat)
    requires
        ungrouped(d),
        !forced(d),
    ensures
        single_line(render(d, col, indent, false, w, iw).0),
    decreases d, 0nat,
{
    match d {
        Doc::Indent(c) => lemma_flat_single_line(*c, col, sat(indent + iw), w, iw),
        Doc::IfBreak(_, f) => lemma_flat_single_line(*f, col, indent, w, iw),
        Doc::Concat(s) => lemma_flat_single_line_seq(s, s.len(), col, indent, w, iw),
        _ => {},
    }
}

proof fn lemma_flat_single_line_seq(s: Seq<Doc>, n: nat, col: nat, indent: nat, w: nat, iw: nat)
    requires
        all_ungrouped(s, n),
        !any_forced(s, n),
    ensures
        single_line(render_seq(s, n, col, indent, false, w, iw).0),
    decreases s, n,
{
    if n > 0 && n <= s.len() {
        lemma_flat_single_line_seq(s, (n - 1) as nat, col, indent, w, iw);
        let (a, c) = render_seq(s, (n - 1) as nat, col, indent, false, w, iw);
        lemma_flat_single_line(s[n - 1], c, indent, w, iw);
        let b = render(s[n - 1], c, indent, false, w, iw).0;
        assert forall|i: int| 0 <= i < (a + b).len() implies (a + b)[i] != '\n' by {
            if i >= a.len() {
                assert((a + b)[i] == b[i - a.len()]);
            }
        }
    }
}

/// Without groups, the maximum width plays no part in the rendering.
proof fn lemma_ungrouped_width_free(
    d: Doc,
    col: nat,
    indent: nat,
    broken: bool,
    w1: nat,
    w2: nat,
    iw: nat,
)
    requires
        ungrouped(d),
    ensures
        render(d, col, indent, broken, w1, iw) == render(d, col, indent, broken, w2, iw),
    decreases d, 0nat,
{
    match d {
        Doc::Indent(c) => lemma_ungrouped_width_free(*c, col, sat(indent + iw), broken, w1, w2, iw),
        Doc::IfBreak(b, f) => {
            lemma_ungrouped_width_free(*b, col, indent, broken, w1, w2, iw);
            lemma_ungrouped_width_free(*f, col, indent, broken, w1, w2, iw);
        },
        Doc::Concat(s) => lemma_ungrouped_width_free_seq(s, s.len(), col, indent, broken, w1, w2, iw),
        _ => {},
    }
}

proof fn lemma_ungrouped_width_free_seq(
    s: Seq<Doc>,
    n: nat,
    col: nat,
    indent: nat,
    broken: bool,
    w1: nat,
    w2: nat,
    iw: nat,
)
    requires
        all_ungrouped(s, n),
    ensures
        render_seq(s, n, col, indent, broken, w1, iw) == render_seq(s, n, col, indent, broken, w2, iw),
    decreases s, n,
{
    if n > 0 && n <= s.len() {
        lemma_ungrouped_width_free_seq(s, (n - 1) as nat, col, indent, broken, w1, w2, iw);
        let c = render_seq(s, (n - 1) as nat, col, indent, broken, w1, iw).1;
        lemma_ungrouped_width_free(s[n - 1], c, indent, broken, w1, w2, iw);
    }
}

/// Group monotonicity: shrinking the maximum width never decreases the number
/// of line breaks in the rendering of a group whose content holds no nested
/// group and no text with a line break in it, wherever the group starts.
pub proof fn lemma_group_monotone(
    content: Doc,
    col: nat,
    indent: nat,
    outer_broken: bool,
    w1: nat,
    w2: nat,
    indent_width: nat,
)
    requires
        ungrouped(content),
        w2 <= w1,
    ensures
        line_breaks(
            render(Doc::Group(Box::new(content)), col, indent, outer_broken, w2, indent_width).0,
        ) >= line_breaks(
            render(Doc::Group(Box::new(content)), col, indent, outer_broken, w1, indent_width).0,
        ),
{
    let iw = indent_width;
    if fits(content, col, w1) {
        lemma_flat_single_line(content, col, indent, w1, iw);
        lemma_single_line_count(render(content, col, indent, false, w1, iw).0);
    } else {
        lemma_ungrouped_width_free(content, col, indent, true, w1, w2, iw);
    }
}

/// How a document is rendered: the maximum line width, and the columns of
/// indentation that one `Indent` adds.
pub struct PrintOptions {
    pub max_width: usize,
    pub indent_width: usize,
}

fn sat_add(a: usize, b: usize) -> (r: usize)
    ensures
        r == sat((a + b) as nat),
{
    if a > usize::MAX - b {
        usize::MAX
    } else {
        a + b
    }
}

/// The room left of `budget` columns after `d` rendered flat, or `None` where
/// `d` does not fit in them or forces a break.
pub fn fit_within(d: &FormatToken, budget: usize) -> (r: Option<usize>)
    ensures
        r == (if !forced(d@) && flat_width(d@) <= budget {
            Some((budget - flat_width(d@)) as usize)
        } else {
            None::<usize>
        }),
    decreases d,
{
    match d {
        FormatToken::Text(s) => {
            let n = s.as_str().unicode_len();
            if n <= budget {
                Some(budget - n)
            } else {
                None
            }
        },
        FormatToken::Space => if budget >= 1 {
            Some(budget - 1)
        } else {
            None
        },
        FormatToken::Line(m) => match m {
            LineMode::Soft => Some(budget),
            LineMode::SoftOrSpace => if budget >= 1 {
                Some(budget - 1)
            } else {
                None
            },
            _ => None,
        },
        FormatToken::Indent(c) => fit_within(c, budget),
        FormatToken::Group(c) => fit_within(c, budget),
        FormatToken::IfBreak(_, f) => fit_within(f, budget),
        FormatToken::Concat(v) => {
            proof {
                lemma_concat_view(*v);
            }
            let ghost s = docs(v@);
            let mut left = budget;
            let mut i: usize = 0;
            while i < v.len()
                invariant
                    *d == FormatToken::Concat(*v),
                    s == docs(v@),
                    d@ == Doc::Concat(s),
                    i <= v.len(),
                    !any_forced(s, i as nat),
                    sum_flat_width(s, i as nat) + left == budget,
                decreases v.len() - i,
            {
                proof {
                    assert(decreases_to!(*d => d->Concat_0));
                    assert(decreases_to!(*v => v[i as int]));
                    assert(s[i as int] == v@[i as int]@);
                }
                match fit_within(&v[i], left) {
                    Some(l) => {
                        left = l;
                    },
                    None => {
                        proof {
                            assert(any_forced(s, (i + 1) as nat) || sum_flat_width(s, (i + 1) as nat) > budget);
                            lemma_seq_monotone(s, (i + 1) as nat, s.len());
                            assert(d@ == Doc::Concat(s));
                            assert(forced(d@) == any_forced(s, s.len()));
                            assert(flat_width(d@) == sum_flat_width(s, s.len()));
                        }
                        return None;
                    },
                }
                i = i + 1;
            }
            Some(left)
        },
    }
}

/// Forcing and flat width only grow along a sequence.
proof fn lemma_seq_monotone(s: Seq<Doc>, m: nat, n: nat)
    requires
        m <= n <= s.len(),
    ensures
        any_forced(s, m) ==> any_forced(s, n),
        sum_flat_width(s, m) <= sum_flat_width(s, n),
    decreases n - m,
{
    if m < n {
        lemma_seq_monotone(s, m, (n - 1) as nat);
    }
}

fn push_newline(out: &mut String, indent: usize)
    ensures
        final(out)@ == old(out)@ + newline(indent as nat),
{
    let ghost start = out@;
    proof {
        reveal_strlit("\n");
        reveal_strlit(" ");
    }
    out.append("\n");
    let mut k: usize = 0;
    while k < indent
        invariant
            k <= indent,
            out@ == start + seq!['\n'] + spaces(k as nat),
        decreases indent - k,
    {
        proof {
            reveal_strlit(" ");
        }
        out.append(" ");
        proof {
            assert(spaces((k + 1) as nat) =~= spaces(k as nat) + seq![' ']);
        }
        k = k + 1;
    }
    proof {
        assert(start + seq!['\n'] + spaces(indent as nat) =~= start + newline(indent as nat));
    }
}

/// Appends the rendering of `d` to `out` and returns the column after it.
pub fn render_into(
    d: &FormatToken,
    out: &mut String,
    col: usize,
    indent: usize,
    broken: bool,
    options: &PrintOptions,
) -> (r: usize)
    ensures
        final(out)@ == old(out)@ + render(
            d@,
            col as nat,
            indent as nat,
            broken,
            options.max_width as nat,
            options.indent_width as nat,
        ).0,
        r as nat == render(
            d@,
            col as nat,
            indent as nat,
            broken,
            options.max_width as nat,
            options.indent_width as nat,
        ).1,
    decreases d,
{
    proof {
        reveal_strlit("\n");
        reveal_strlit(" ");
    }
    match d {
        FormatToken::Text(s) => {
            let n = s.as_str().unicode_len();
            out.append(s.as_str());
            sat_add(col, n)
        },
        FormatToken::Space => {
            out.append(" ");
            sat_add(col, 1)
        },
        FormatToken::Line(m) => {
            match m {
                LineMode::Literal => {
                    out.append("\n");
                    0
                },
                LineMode::Hard => {
                    push_newline(out, indent);
                    indent
                },
                LineMode::SoftOrSpace => {
                    if broken {
                        push_newline(out, indent);
                        indent
                    } else {
                        out.append(" ");
                        sat_add(col, 1)
                    }
                },
                LineMode::Soft => {
                    if broken {
                        push_newline(out, indent);
                        indent
                    } else {
                        proof {
                            assert(out@ =~= old(out)@ + Seq::<char>::empty());
                        }
                        col
                    }
                },
            }
        },
        FormatToken::Indent(c) => {
            let inner = sat_add(indent, options.indent_width);
            render_into(c, out, col, inner, broken, options)
        },
        FormatToken::Group(c) => {
            let fit = if col <= options.max_width {
                fit_within(c, options.max_width - col).is_some()
            } else {
                false
            };
            render_into(c, out, col, indent, !fit, options)
        },
        FormatToken::IfBreak(b, f) => {
            if broken {
                render_into(b, out, col, indent, broken, options)
            } else {
                render_into(f, out, col, indent, broken, options)
            }
        },
        FormatToken::Concat(v) => {
            proof {
                lemma_concat_view(*v);
            }
            let ghost s = docs(v@);
            let ghost start = out@;
            let ghost w = options.max_width as nat;
            let ghost iw = options.indent_width as nat;
            let mut c = col;
            let mut i: usize = 0;
            while i < v.len()
                invariant
                    *d == FormatToken::Concat(*v),
                    s == docs(v@),
                    d@ == Doc::Concat(s),
                    w == options.max_width as nat,
                    iw == options.indent_width as nat,
                    i <= v.len(),
                    out@ == start + render_seq(s, i as nat, col as nat, indent as nat, broken, w, iw).0,
                    c as nat == render_seq(s, i as nat, col as nat, indent as nat, broken, w, iw).1,
                decreases v.len() - i,
            {
                proof {
                    assert(decreases_to!(*d => d->Concat_0));
                    assert(decreases_to!(*v => v[i as int]));
                    assert(s[i as int] == v@[i as int]@);
                }
                c = render_into(&v[i], out, c, indent, broken, options);
                proof {
                    assert(out@ =~= start + render_seq(s, (i + 1) as nat, col as nat, indent as nat, broken, w, iw).0);
                }
                i = i + 1;
            }
            c
        },
    }
}

/// The text of a document, rendered from the start of a line outside any group.
pub fn print_document(token: &FormatToken, options: &PrintOptions) -> (r: String)
    ensures
        r@ == printed(token@, options.max_width as nat, options.indent_width as nat),
{
    let mut out = String::new();
    render_into(token, &mut out, 0, 0, false, options);
    proof {
        assert(out@ =~= printed(token@, options.max_width as nat, options.indent_width as nat));
    }
    out
}

} // verus!
