//! Interning of syntax-tree leaf tokens by kind and text.
use vstd::prelude::*;
use rowan::GreenToken;

verus! {

/// The kinds of leaf tokens.
#[derive(Clone, Copy, Debug, PartialEq, Eq, Structural, Hash)]
pub enum SyntaxKind {
    Whitespace,
    Comment,
    NumberToken,
    StringToken,
    Ident,
    LBrace,
    RBrace,
    LBrack,
    RBrack,
    Colon,
    Comma,
    TrueKw,
    FalseKw,
    NullKw,
}

impl SyntaxKind {
    pub open spec fn spec_raw(self) -> u16 {
        match self {
            SyntaxKind::Whitespace => 0,
            SyntaxKind::Comment => 1,
            SyntaxKind::NumberToken => 2,
            SyntaxKind::StringToken => 3,
            SyntaxKind::Ident => 4,
            SyntaxKind::LBrace => 5,
            SyntaxKind::RBrace => 6,
            SyntaxKind::LBrack => 7,
            SyntaxKind::RBrack => 8,
            SyntaxKind::Colon => 9,
            SyntaxKind::Comma => 10,
            SyntaxKind::TrueKw => 11,
            SyntaxKind::FalseKw => 12,
            SyntaxKind::NullKw => 13,
        }
    }

    /// The raw kind number that the syntax tree stores.
    #[verifier::when_used_as_spec(spec_raw)]
    pub fn raw(self) -> (r: u16)
        ensures
            r == self.spec_raw(),
    {
        match self {
            SyntaxKind::Whitespace => 0,
            SyntaxKind::Comment => 1,
            SyntaxKind::NumberToken => 2,
            SyntaxKind::StringToken => 3,
            SyntaxKind::Ident => 4,
            SyntaxKind::LBrace => 5,
            SyntaxKind::RBrace => 6,
            SyntaxKind::LBrack => 7,
            SyntaxKind::RBrack => 8,
            SyntaxKind::Colon => 9,
            SyntaxKind::Comma => 10,
            SyntaxKind::TrueKw => 11,
            SyntaxKind::FalseKw => 12,
            SyntaxKind::NullKw => 13,
        }
    }
}

pub proof fn lemma_raw_injective(a: SyntaxKind, b: SyntaxKind)
    ensures
        a.raw() == b.raw() ==> a == b,
{
}

#[verifier::external_type_specification]
#[verifier::external_body]
pub struct ExGreenToken(GreenToken);

/// The kind that a green token holds.
pub uninterp spec fn green_kind(t: GreenToken) -> u16;

/// The text that a green token holds.
pub uninterp spec fn green_text(t: GreenToken) -> Seq<char>;

/// Relies on `rowan::GreenToken::new`, which allocates a token holding the
/// kind and the text.
#[verifier::external_body]
fn new_green_token(kind: u16, text: &str) -> (r: GreenToken)
    ensures
        green_kind(r) == kind,
        green_text(r) == text@,
{
    GreenToken::new(rowan::SyntaxKind(kind), text)
}

/// A hash table from kind and text to the token interned for them.
#[verifier::external_body]
pub struct TokenTable {
    map: hashbrown::HashMap<(u16, String), GreenToken>,
}

/// What a token table holds.
pub uninterp spec fn table_entries(t: TokenTable) -> Map<(u16, Seq<char>), GreenToken>;

impl TokenTable {
    /// Relies on `hashbrown::HashMap::new`: an empty map.
    #[verifier::external_body]
    fn new() -> (r: TokenTable)
        ensures
            table_entries(r).dom().len() == 0,
            table_entries(r).dom().finite(),
    {
        TokenTable { map: hashbrown::HashMap::new() }
    }

    /// Relies on `hashbrown::HashMap::get`, which finds the entry of an equal
    /// key; the token handed back is a clone, sharing the stored allocation.
    #[verifier::external_body]
    fn lookup(&self, kind: u16, text: &str) -> (r: Option<GreenToken>)
        ensures
            r is Some <==> table_entries(*self).contains_key((kind, text@)),
            r is Some ==> r->0 == table_entries(*self)[(kind, text@)],
    {
        self.map.get(&(kind, text.to_string())).cloned()
    }

    /// Relies on `hashbrown::HashMap::insert`, which maps the key to the
    /// value, replacing any earlier entry; it stores a clone of the token.
    #[verifier::external_body]
    fn insert(&mut self, kind: u16, text: &str, token: &GreenToken)
        ensures
            table_entries(*final(self)) == table_entries(*old(self)).insert((kind, text@), *token),
    {
        self.map.insert((kind, text.to_string()), token.clone());
    }
}

/// Cache of interned green tokens: one token for each kind and text.
pub struct TokensCache {
    table: TokenTable,
}

/// The outcome of one interning request for `kind` and `text`, from the
/// entries `before` to the entries `after`, handing back `r`.
pub open spec fn interned(
    before: Map<(u16, Seq<char>), GreenToken>,
    after: Map<(u16, Seq<char>), GreenToken>,
    kind: u16,
    text: Seq<char>,
    r: GreenToken,
) -> bool {
    &&& after == before.insert((kind, text), r)
    &&& before.contains_key((kind, text)) ==> r == before[(kind, text)]
    &&& green_kind(r) == kind
    &&& green_text(r) == text
}

impl TokensCache {
    pub closed spec fn entries(&self) -> Map<(u16, Seq<char>), GreenToken> {
        table_entries(self.table)
    }

    /// Every stored token holds the kind and text it is stored under.
    pub open spec fn wf(&self) -> bool {
        forall|k: (u16, Seq<char>)| #[trigger]
            self.entries().contains_key(k) ==> green_kind(self.entries()[k]) == k.0
                && green_text(self.entries()[k]) == k.1
    }

    pub fn new() -> (r: TokensCache)
        ensures
            r.wf(),
            r.entries() == Map::<(u16, Seq<char>), GreenToken>::empty(),
    {
        let r = TokensCache { table: TokenTable::new() };
        proof {
            r.entries().dom().lemma_len0_is_empty();
            assert(r.entries() =~= Map::empty());
        }
        r
    }

    /// The token for `kind` and `text`: the one interned before, or a new one,
    /// which is kept.
    pub fn get(&mut self, kind: SyntaxKind, text: &str) -> (r: GreenToken)
        requires
            old(self).wf(),
        ensures
            final(self).wf(),
            interned(old(self).entries(), final(self).entries(), kind.raw(), text@, r),
    {
        let raw = kind.raw();
        match self.table.lookup(raw, text) {
            Some(t) => {
                proof {
                    assert(self.entries().insert((raw, text@), t) =~= self.entries());
                }
                t
            },
            None => {
                let t = new_green_token(raw, text);
                self.table.insert(raw, text, &t);
                proof {
                    assert forall|k: (u16, Seq<char>)| #[trigger]
                        self.entries().contains_key(k) implies green_kind(self.entries()[k]) == k.0
                        && green_text(self.entries()[k]) == k.1 by {
                        if k != (raw, text@) {
                            assert(old(self).entries().contains_key(k));
                        }
                    }
                }
                t
            },
        }
    }
}

impl Default for TokensCache {
    fn default() -> (r: TokensCache)
        ensures
            r.wf(),
            r.entries() == Map::<(u16, Seq<char>), GreenToken>::empty(),
    {
        TokensCache::new()
    }
}

/// Two requests with equal kind and text hand back the same token and leave
/// the cache as it was after the first; requests that differ in kind or text
/// hand back different tokens.
pub proof fn lemma_interner_identity(
    c0: TokensCache,
    c1: TokensCache,
    c2: TokensCache,
    k1: SyntaxKind,
    t1: Seq<char>,
    r1: GreenToken,
    k2: SyntaxKind,
    t2: Seq<char>,
    r2: GreenToken,
)
    requires
        c0.wf(),
        interned(c0.entries(), c1.entries(), k1.raw(), t1, r1),
        interned(c1.entries(), c2.entries(), k2.raw(), t2, r2),
    ensures
        k1 == k2 && t1 == t2 ==> r1 == r2 && c2.entries() == c1.entries(),
        k1 != k2 || t1 != t2 ==> r1 != r2,
{
    lemma_raw_injective(k1, k2);
    if k1 == k2 && t1 == t2 {
        assert(c1.entries().contains_key((k1.raw(), t1)));
        assert(c1.entries().insert((k2.raw(), t2), r2) =~= c1.entries());
    }
}

} // verus!
