//! A combinator engine over a token stream. Grammar rules are values of
//! [`Rule`]; running one on a cursor consumes tokens, attaches the trivia
//! (whitespace, comments) that precedes each matched token, builds green
//! nodes and collects errors without aborting at local mismatches.

use vstd::prelude::*;
use vstd::string::StringSliceAdditionalSpecFns;
use crate::error::{context_error, eof_error, token_error, Error, ErrorView};
use crate::green::{
    char_count, child_tree, child_trees, green_node, green_node_model, green_token, leaves, text_of, Child,
    SyntaxTree,
};

verus! {

/// What a grammar tells the engine about its token kinds.
pub trait RowanNomLanguage {
    spec fn spec_is_trivia(kind: u16) -> bool;

    spec fn spec_error_kind() -> u16;

    /// Whether tokens of this kind are trivia: invisible to matching, kept in the tree.
    fn is_trivia(kind: u16) -> (r: bool)
        ensures
            r == Self::spec_is_trivia(kind),
    ;

    /// The kind of the nodes that stand where a rule failed.
    fn get_error_kind() -> (r: u16)
        ensures
            r == Self::spec_error_kind(),
    ;
}

// ---------------------------------------------------------------------------
// Token sequences

/// Kind and text of each token.
pub open spec fn tok_models(ts: Seq<(u16, &str)>) -> Seq<(u16, Seq<char>)> {
    ts.map_values(|t: (u16, &str)| (t.0, t.1@))
}

/// Each token as a leaf of a tree.
pub open spec fn leaf_trees(ts: Seq<(u16, &str)>) -> Seq<SyntaxTree> {
    ts.map_values(|t: (u16, &str)| SyntaxTree::Leaf(t.0, t.1@))
}

/// The number of bytes of the tokens' texts.
pub open spec fn byte_count(ts: Seq<(u16, &str)>) -> nat
    decreases ts.len(),
{
    if ts.len() == 0 {
        0
    } else {
        ts[0].1.spec_bytes().len() + byte_count(ts.drop_first())
    }
}

/// The number of leading trivia tokens.
pub open spec fn trivia_run<L: RowanNomLanguage>(ts: Seq<(u16, &str)>) -> nat
    decreases ts.len(),
{
    if ts.len() > 0 && L::spec_is_trivia(ts[0].0) {
        1 + trivia_run::<L>(ts.drop_first())
    } else {
        0
    }
}

// ---------------------------------------------------------------------------
// Rules and what they mean

/// A grammar rule.
pub enum Rule {
    /// One token of the kind, with the trivia before it.
    Token(u16),
    /// The first rule, then the second on what remains; fails if either fails.
    Join(Box<Rule>, Box<Rule>),
    /// The first rule; where it fails, the second on the same tokens.
    Alt(Box<Rule>, Box<Rule>),
    /// The rule as many times as it succeeds and makes progress.
    Many0(Box<Rule>),
    /// The rule's output wrapped in one node of the kind.
    Node(u16, Box<Rule>),
    /// The rule, or, where it fails, an empty error node and the error.
    Fallible(Box<Rule>),
    /// As `Fallible`, with the error wrapped in the context message.
    FallibleWith(Box<Rule>, String),
}

/// What a successful rule leaves: the tokens not consumed, the trees built,
/// and the errors recorded, in order.
pub ghost struct Outcome<'src> {
    pub rest: Seq<(u16, &'src str)>,
    pub trees: Seq<SyntaxTree>,
    pub errors: Seq<ErrorView>,
}

pub open spec fn empty_outcome<'src>(rem: Seq<(u16, &'src str)>) -> Outcome<'src> {
    Outcome { rest: rem, trees: seq![], errors: seq![] }
}

/// The byte offset of the first of the remaining tokens, in a stream whose
/// text ends at byte `end`.
pub open spec fn offset_of(rem: Seq<(u16, &str)>, end: int) -> int {
    end - byte_count(rem)
}

/// The meaning of a rule on the remaining tokens of a stream whose text
/// ends at byte `end`: the outcome, or the error it fails with.
pub open spec fn run<'src, L: RowanNomLanguage>(rule: Rule, rem: Seq<(u16, &'src str)>, end: int) -> Result<
    Outcome<'src>,
    ErrorView,
>
    decreases rule, 0nat,
{
    match rule {
        Rule::Token(k) => {
            let n = trivia_run::<L>(rem) as int;
            if n < rem.len() && rem[n].0 == k {
                Ok(
                    Outcome {
                        rest: rem.skip(n + 1),
                        trees: leaf_trees(rem.take(n + 1)),
                        errors: seq![],
                    },
                )
            } else if n < rem.len() {
                let start = offset_of(rem.skip(n), end);
                Err(token_error(start, start + rem[n].1.spec_bytes().len(), k, rem[n].0))
            } else {
                Err(eof_error(end))
            }
        },
        Rule::Join(a, b) => match run::<L>(*a, rem, end) {
            Err(e) => Err(e),
            Ok(oa) => match run::<L>(*b, oa.rest, end) {
                Err(e) => Err(e),
                Ok(ob) => Ok(
                    Outcome {
                        rest: ob.rest,
                        trees: oa.trees + ob.trees,
                        errors: oa.errors + ob.errors,
                    },
                ),
            },
        },
        Rule::Alt(a, b) => match run::<L>(*a, rem, end) {
            Ok(oa) => Ok(oa),
            Err(_) => run::<L>(*b, rem, end),
        },
        Rule::Many0(p) => Ok(many_from::<L>(*p, rem, end)),
        Rule::Node(k, p) => match run::<L>(*p, rem, end) {
            Err(e) => Err(e),
            Ok(o) => Ok(
                Outcome { rest: o.rest, trees: seq![SyntaxTree::Branch(k, o.trees)], errors: o.errors },
            ),
        },
        Rule::Fallible(p) => match run::<L>(*p, rem, end) {
            Err(e) => Ok(recovered::<L>(rem, e)),
            Ok(o) => Ok(o),
        },
        Rule::FallibleWith(p, ctx) => match run::<L>(*p, rem, end) {
            Err(e) => Ok(recovered::<L>(rem, context_error(e, ctx@))),
            Ok(o) => Ok(o),
        },
    }
}

/// A failure turned into an empty error node and the error, at the same place.
pub open spec fn recovered<'src, L: RowanNomLanguage>(rem: Seq<(u16, &'src str)>, e: ErrorView) -> Outcome<'src> {
    Outcome {
        rest: rem,
        trees: seq![SyntaxTree::Branch(L::spec_error_kind(), seq![])],
        errors: seq![e],
    }
}

/// Repetition: stops at the first failure, or at a success that consumed nothing.
pub open spec fn many_from<'src, L: RowanNomLanguage>(p: Rule, rem: Seq<(u16, &'src str)>, end: int) -> Outcome<
    'src,
>
    decreases p, rem.len(),
{
    if rem.len() == 0 {
        empty_outcome(rem)
    } else {
        match run::<L>(p, rem, end) {
            Ok(o) => if o.rest.len() < rem.len() {
                let more = many_from::<L>(p, o.rest, end);
                Outcome {
                    rest: more.rest,
                    trees: o.trees + more.trees,
                    errors: o.errors + more.errors,
                }
            } else {
                empty_outcome(rem)
            },
            Err(_) => empty_outcome(rem),
        }
    }
}

// ---------------------------------------------------------------------------
// Lemmas on token sequences and forests

proof fn lemma_leaves_append(a: Seq<SyntaxTree>, b: Seq<SyntaxTree>)
    ensures
        leaves(a + b) == leaves(a) + leaves(b),
    decreases a.len(),
{
    if a.len() == 0 {
        assert(a + b =~= b);
    } else {
        assert((a + b).drop_first() =~= a.drop_first() + b);
        lemma_leaves_append(a.drop_first(), b);
        assert((a + b)[0] == a[0]);
    }
}

proof fn lemma_leaves_branch(k: u16, ts: Seq<SyntaxTree>)
    ensures
        leaves(seq![SyntaxTree::Branch(k, ts)]) == leaves(ts),
{
    let one = seq![SyntaxTree::Branch(k, ts)];
    assert(one.drop_first() =~= Seq::<SyntaxTree>::empty());
    assert(leaves(one.drop_first()) == Seq::<(u16, Seq<char>)>::empty());
    assert(one[0] == SyntaxTree::Branch(k, ts));
    assert(leaves(ts) + Seq::<(u16, Seq<char>)>::empty() =~= leaves(ts));
    reveal_with_fuel(leaves, 2);
}

proof fn lemma_leaf_trees(ts: Seq<(u16, &str)>)
    ensures
        leaves(leaf_trees(ts)) == tok_models(ts),
    decreases ts.len(),
{
    if ts.len() == 0 {
        assert(leaf_trees(ts) =~= Seq::<SyntaxTree>::empty());
        assert(tok_models(ts) =~= Seq::<(u16, Seq<char>)>::empty());
    } else {
        lemma_leaf_trees(ts.drop_first());
        assert(leaf_trees(ts).drop_first() =~= leaf_trees(ts.drop_first()));
        assert(tok_models(ts) =~= seq![(ts[0].0, ts[0].1@)] + tok_models(ts.drop_first()));
    }
}

proof fn lemma_tok_models_append(a: Seq<(u16, &str)>, b: Seq<(u16, &str)>)
    ensures
        tok_models(a + b) == tok_models(a) + tok_models(b),
{
    assert(tok_models(a + b) =~= tok_models(a) + tok_models(b));
}

proof fn lemma_text_append(a: Seq<(u16, Seq<char>)>, b: Seq<(u16, Seq<char>)>)
    ensures
        text_of(a + b) == text_of(a) + text_of(b),
    decreases a.len(),
{
    if a.len() == 0 {
        assert(a + b =~= b);
        assert(text_of(a) + text_of(b) =~= text_of(b));
    } else {
        assert((a + b).drop_first() =~= a.drop_first() + b);
        lemma_text_append(a.drop_first(), b);
        assert((a + b)[0] == a[0]);
        assert(text_of(a + b) =~= text_of(a) + text_of(b));
    }
}

proof fn lemma_byte_append(a: Seq<(u16, &str)>, b: Seq<(u16, &str)>)
    ensures
        byte_count(a + b) == byte_count(a) + byte_count(b),
    decreases a.len(),
{
    if a.len() == 0 {
        assert(a + b =~= b);
    } else {
        assert((a + b).drop_first() =~= a.drop_first() + b);
        lemma_byte_append(a.drop_first(), b);
        assert((a + b)[0] == a[0]);
    }
}

/// Splitting a token sequence splits its bytes and characters.
proof fn lemma_split_counts(ts: Seq<(u16, &str)>, k: int)
    requires
        0 <= k <= ts.len(),
    ensures
        byte_count(ts) == byte_count(ts.take(k)) + byte_count(ts.skip(k)),
        char_count(tok_models(ts)) == char_count(tok_models(ts.take(k))) + char_count(
            tok_models(ts.skip(k)),
        ),
{
    assert(ts =~= ts.take(k) + ts.skip(k));
    lemma_byte_append(ts.take(k), ts.skip(k));
    lemma_tok_models_append(ts.take(k), ts.skip(k));
    lemma_text_append(tok_models(ts.take(k)), tok_models(ts.skip(k)));
}

proof fn lemma_trivia_run<L: RowanNomLanguage>(a: Seq<(u16, &str)>, b: Seq<(u16, &str)>)
    requires
        forall|i: int| 0 <= i < a.len() ==> L::spec_is_trivia(#[trigger] a[i].0),
        b.len() > 0 ==> !L::spec_is_trivia(b[0].0),
    ensures
        trivia_run::<L>(a + b) == a.len(),
    decreases a.len(),
{
    if a.len() == 0 {
        assert(a + b =~= b);
    } else {
        assert((a + b).drop_first() =~= a.drop_first() + b);
        assert(forall|i: int| 0 <= i < a.drop_first().len() ==> a.drop_first()[i] == a[i + 1]);
        lemma_trivia_run::<L>(a.drop_first(), b);
        assert((a + b)[0] == a[0]);
    }
}

// ---------------------------------------------------------------------------
// Laws

/// No token is dropped, duplicated or reordered: the leaves of what a
/// successful rule builds, followed by the tokens it left, are exactly the
/// tokens it was given.
pub proof fn lemma_run_lossless<'src, L: RowanNomLanguage>(rule: Rule, rem: Seq<(u16, &'src str)>, end: int)
    ensures
        run::<L>(rule, rem, end) matches Ok(o) ==> tok_models(rem) == leaves(o.trees) + tok_models(
            o.rest,
        ),
    decreases rule, 0nat,
{
    match rule {
        Rule::Token(k) => {
            let n = trivia_run::<L>(rem) as int;
            if n < rem.len() && rem[n].0 == k {
                assert(rem =~= rem.take(n + 1) + rem.skip(n + 1));
                lemma_tok_models_append(rem.take(n + 1), rem.skip(n + 1));
                lemma_leaf_trees(rem.take(n + 1));
            }
        },
        Rule::Join(a, b) => {
            lemma_run_lossless::<L>(*a, rem, end);
            if let Ok(oa) = run::<L>(*a, rem, end) {
                lemma_run_lossless::<L>(*b, oa.rest, end);
                if let Ok(ob) = run::<L>(*b, oa.rest, end) {
                    lemma_leaves_append(oa.trees, ob.trees);
                }
            }
        },
        Rule::Alt(a, b) => {
            lemma_run_lossless::<L>(*a, rem, end);
            lemma_run_lossless::<L>(*b, rem, end);
        },
        Rule::Many0(p) => {
            lemma_many_lossless::<L>(*p, rem, end);
        },
        Rule::Node(k, p) => {
            lemma_run_lossless::<L>(*p, rem, end);
            if let Ok(o) = run::<L>(*p, rem, end) {
                lemma_leaves_branch(k, o.trees);
            }
        },
        Rule::Fallible(p) => {
            lemma_run_lossless::<L>(*p, rem, end);
            lemma_leaves_branch(L::spec_error_kind(), seq![]);
            assert(leaves(seq![]) + tok_models(rem) =~= tok_models(rem));
        },
        Rule::FallibleWith(p, _) => {
            lemma_run_lossless::<L>(*p, rem, end);
            lemma_leaves_branch(L::spec_error_kind(), seq![]);
            assert(leaves(seq![]) + tok_models(rem) =~= tok_models(rem));
        },
    }
}

/// Repetition keeps every token too.
pub proof fn lemma_many_lossless<'src, L: RowanNomLanguage>(p: Rule, rem: Seq<(u16, &'src str)>, end: int)
    ensures
        ({
            let o = many_from::<L>(p, rem, end);
            tok_models(rem) == leaves(o.trees) + tok_models(o.rest)
        }),
    decreases p, rem.len(),
{
    assert(leaves(seq![]) + tok_models(rem) =~= tok_models(rem));
    if rem.len() > 0 {
        lemma_run_lossless::<L>(p, rem, end);
        if let Ok(o) = run::<L>(p, rem, end) {
            if o.rest.len() < rem.len() {
                lemma_many_lossless::<L>(p, o.rest, end);
                let more = many_from::<L>(p, o.rest, end);
                lemma_leaves_append(o.trees, more.trees);
            }
        }
    }
}

/// The text of the tree a rule builds, followed by the text left unread,
/// is the text it was given; where nothing is left, the tree's text is the
/// whole text.
pub proof fn lemma_text_lossless<'src, L: RowanNomLanguage>(rule: Rule, rem: Seq<(u16, &'src str)>, end: int)
    ensures
        run::<L>(rule, rem, end) matches Ok(o) ==> text_of(tok_models(rem)) == text_of(leaves(o.trees))
            + text_of(tok_models(o.rest)),
        run::<L>(rule, rem, end) matches Ok(o) ==> (o.rest.len() == 0 ==> text_of(leaves(o.trees))
            == text_of(tok_models(rem))),
{
    lemma_run_lossless::<L>(rule, rem, end);
    if let Ok(o) = run::<L>(rule, rem, end) {
        lemma_text_append(leaves(o.trees), tok_models(o.rest));
        if o.rest.len() == 0 {
            assert(tok_models(o.rest) =~= Seq::<(u16, Seq<char>)>::empty());
            assert(text_of(leaves(o.trees)) + text_of(tok_models(o.rest)) =~= text_of(leaves(o.trees)));
        }
    }
}

// ---------------------------------------------------------------------------
// Cursor

/// Splits the slice before the first item for which the predicate holds.
pub fn split_slice_predicate<'b, T, F: Fn(&T) -> bool>(slice: &'b [T], predicate: F) -> (r: (
    &'b [T],
    &'b [T],
))
    requires
        forall|x: &T| predicate.requires((x,)),
    ensures
        r.0@ + r.1@ == slice@,
        forall|i: int| 0 <= i < r.0@.len() ==> predicate.ensures((&r.0@[i],), false),
        r.1@.len() > 0 ==> predicate.ensures((&r.1@[0],), true),
{
    let mut i: usize = 0;
    let mut found = false;
    while !found && i < slice.len()
        invariant
            i <= slice@.len(),
            forall|x: &T| predicate.requires((x,)),
            forall|j: int| 0 <= j < i ==> predicate.ensures((&slice@[j],), false),
            found ==> i < slice@.len() && predicate.ensures((&slice@[i as int],), true),
        decreases slice@.len() - i + (if found { 0int } else { 1int }),
    {
        if predicate(&slice[i]) {
            found = true;
        } else {
            i = i + 1;
        }
    }
    let r = slice.split_at(i);
    assert(r.0@ + r.1@ =~= slice@);
    r
}

/// A read position in a token stream: the trivia run just ahead, the tokens
/// after it, and the number of bytes already consumed.
#[derive(Clone, Copy)]
pub struct Input<'a, 'src> {
    src_pos: usize,
    trivia_tokens: &'a [(u16, &'src str)],
    trivia_tokens_text_len: usize,
    tokens: &'a [(u16, &'src str)],
}

impl<'a, 'src> Input<'a, 'src> {
    /// The tokens not consumed yet, trivia included.
    pub closed spec fn rem(&self) -> Seq<(u16, &'src str)> {
        self.trivia_tokens@ + self.tokens@
    }

    /// The byte offset of the first token not consumed.
    pub closed spec fn pos(&self) -> nat {
        self.src_pos as nat
    }

    /// The trivia run ahead is maximal, its length is known, and the
    /// stream's sizes fit the machine's counters.
    pub closed spec fn wf<L: RowanNomLanguage>(&self) -> bool {
        &&& forall|i: int|
            0 <= i < self.trivia_tokens@.len() ==> L::spec_is_trivia(
                #[trigger] self.trivia_tokens@[i].0,
            )
        &&& (self.tokens@.len() > 0 ==> !L::spec_is_trivia(self.tokens@[0].0))
        &&& self.trivia_tokens_text_len == byte_count(self.trivia_tokens@)
        &&& self.src_pos + byte_count(self.rem()) <= usize::MAX
        &&& 4 * char_count(tok_models(self.rem())) <= u32::MAX
        &&& self.rem().len() <= usize::MAX
    }

    /// The number of trivia tokens just ahead of the next significant token.
    pub closed spec fn trivia_count(&self) -> nat {
        self.trivia_tokens@.len()
    }

    /// A cursor at the start of a token stream: all its leading trivia,
    /// which is every token of a stream that holds only trivia, is buffered
    /// ahead of the first significant token.
    pub fn new<L: RowanNomLanguage>(tokens: &'a [(u16, &'src str)]) -> (r: Self)
        requires
            byte_count(tokens@) <= usize::MAX,
            4 * char_count(tok_models(tokens@)) <= u32::MAX,
        ensures
            r.wf::<L>(),
            r.rem() == tokens@,
            r.pos() == 0,
            r.trivia_count() == trivia_run::<L>(tokens@),
    {
        Self::advance_trivia::<L>(0, tokens)
    }

    /// The cursor at `src_pos` before `tokens`, with its leading trivia set apart.
    fn advance_trivia<L: RowanNomLanguage>(src_pos: usize, tokens: &'a [(u16, &'src str)]) -> (r:
        Self)
        requires
            src_pos + byte_count(tokens@) <= usize::MAX,
            4 * char_count(tok_models(tokens@)) <= u32::MAX,
        ensures
            r.wf::<L>(),
            r.rem() == tokens@,
            r.pos() == src_pos,
            r.trivia_count() == trivia_run::<L>(tokens@),
    {
        let significant = |t: &(u16, &'src str)| -> (b: bool)
            ensures
                b == !L::spec_is_trivia(t.0),
            {
                let trivia = L::is_trivia(t.0);
                !trivia
            };
        let n = tokens.len();
        let (trivia_tokens, rest) = split_slice_predicate(tokens, significant);
        proof {
            lemma_byte_append(trivia_tokens@, rest@);
            lemma_trivia_run::<L>(trivia_tokens@, rest@);
        }
        let mut sum: usize = 0;
        let mut i: usize = 0;
        while i < trivia_tokens.len()
            invariant
                i <= trivia_tokens@.len(),
                sum == byte_count(trivia_tokens@.take(i as int)),
                byte_count(trivia_tokens@) <= usize::MAX,
            decreases trivia_tokens@.len() - i,
        {
            proof {
                let ts = trivia_tokens@;
                assert(ts.take(i + 1) =~= ts.take(i as int) + seq![ts[i as int]]);
                lemma_byte_append(ts.take(i as int), seq![ts[i as int]]);
                assert(seq![ts[i as int]].drop_first() =~= Seq::<(u16, &str)>::empty());
                assert(seq![ts[i as int]][0] == ts[i as int]);
                assert(byte_count(Seq::<(u16, &str)>::empty()) == 0);
                assert(byte_count(seq![ts[i as int]]) == ts[i as int].1.spec_bytes().len());
                lemma_split_counts(ts, i + 1);
            }
            sum = sum + trivia_tokens[i].1.len();
            i = i + 1;
        }
        assert(trivia_tokens@.take(i as int) =~= trivia_tokens@);
        Input { src_pos, trivia_tokens, trivia_tokens_text_len: sum, tokens: rest }
    }

    /// The cursor past the trivia run and the token after it.
    fn next<L: RowanNomLanguage>(self) -> (r: Self)
        requires
            self.wf::<L>(),
            self.tokens@.len() > 0,
        ensures
            r.wf::<L>(),
            r.rem() == self.tokens@.drop_first(),
            r.pos() + byte_count(r.rem()) == self.pos() + byte_count(self.rem()),
    {
        let first = self.tokens[0];
        let rest = &self.tokens[1..self.tokens.len()];
        proof {
            lemma_byte_append(self.trivia_tokens@, self.tokens@);
            lemma_split_counts(self.rem(), self.trivia_tokens@.len() + 1int);
            assert(self.rem().skip(self.trivia_tokens@.len() + 1int) =~= rest@);
        }
        Self::advance_trivia::<L>(self.src_pos + self.trivia_tokens_text_len + first.1.len(), rest)
    }

    /// The number of tokens not consumed, trivia included.
    pub fn input_len<L: RowanNomLanguage>(&self) -> (r: usize)
        requires
            self.wf::<L>(),
        ensures
            r == self.rem().len(),
    {
        self.trivia_tokens.len() + self.tokens.len()
    }
}

// ---------------------------------------------------------------------------
// Children

/// The output of a rule so far: an ordered forest and the errors recorded.
pub struct Children {
    errors: Vec<Error>,
    inner: Vec<Child>,
}

impl Children {
    /// The trees, in order.
    pub closed spec fn trees(&self) -> Seq<SyntaxTree> {
        child_trees(self.inner@)
    }

    /// The errors, in the order they were recorded.
    pub closed spec fn error_list(&self) -> Seq<Error> {
        self.errors@
    }

    /// What the errors say, in the order they were recorded.
    pub closed spec fn error_views(&self) -> Seq<ErrorView> {
        self.errors@.map_values(|e: Error| e.view())
    }

    fn empty() -> (r: Self)
        ensures
            r.trees() == Seq::<SyntaxTree>::empty(),
            r.error_list() == Seq::<Error>::empty(),
            r.error_views() == Seq::<ErrorView>::empty(),
    {
        let r = Children { errors: Vec::new(), inner: Vec::new() };
        assert(r.trees() =~= Seq::<SyntaxTree>::empty());
        assert(r.error_views() =~= Seq::<ErrorView>::empty());
        r
    }

    /// The trivia and the token, each as a leaf.
    fn from_tokens(trivia: &[(u16, &str)], token: (u16, &str)) -> (r: Self)
        ensures
            r.trees() == leaf_trees(trivia@.push(token)),
            r.error_list() == Seq::<Error>::empty(),
            r.error_views() == Seq::<ErrorView>::empty(),
    {
        let mut inner: Vec<Child> = Vec::new();
        let mut i: usize = 0;
        while i < trivia.len()
            invariant
                i <= trivia@.len(),
                child_trees(inner@) == leaf_trees(trivia@.take(i as int)),
            decreases trivia@.len() - i,
        {
            let (k, text) = trivia[i];
            let c = Child::Token(green_token(k, text));
            let ghost before = inner@;
            inner.push(c);
            proof {
                assert(inner@ =~= before.push(c));
                assert(child_trees(inner@) =~= child_trees(before).push(child_tree(c)));
                assert(trivia@.take(i + 1) =~= trivia@.take(i as int).push(trivia@[i as int]));
                assert(leaf_trees(trivia@.take(i + 1)) =~= leaf_trees(trivia@.take(i as int)).push(
                    SyntaxTree::Leaf(k, text@),
                ));
            }
            i = i + 1;
        }
        let c = Child::Token(green_token(token.0, token.1));
        let ghost before = inner@;
        inner.push(c);
        proof {
            assert(trivia@.take(i as int) =~= trivia@);
            assert(inner@ =~= before.push(c));
            assert(child_trees(inner@) =~= child_trees(before).push(child_tree(c)));
            assert(leaf_trees(trivia@.push(token)) =~= leaf_trees(trivia@).push(
                SyntaxTree::Leaf(token.0, token.1@),
            ));
        }
        let r = Children { errors: Vec::new(), inner };
        assert(r.error_views() =~= Seq::<ErrorView>::empty());
        r
    }

    /// An empty error node and the error.
    fn from_err<L: RowanNomLanguage>(error: Error) -> (r: Self)
        ensures
            r.trees() == seq![SyntaxTree::Branch(L::spec_error_kind(), seq![])],
            r.error_list() == seq![error],
            r.error_views() == seq![error.view()],
    {
        let empty: Vec<Child> = Vec::new();
        proof {
            assert(child_trees(empty@) =~= Seq::<SyntaxTree>::empty());
            assert(leaves(Seq::<SyntaxTree>::empty()) =~= Seq::<(u16, Seq<char>)>::empty());
        }
        let node = green_node(L::get_error_kind(), empty);
        let mut inner: Vec<Child> = Vec::new();
        inner.push(Child::Node(node));
        let mut errors: Vec<Error> = Vec::new();
        errors.push(error);
        let r = Children { errors, inner };
        assert(r.trees() =~= seq![SyntaxTree::Branch(L::spec_error_kind(), seq![])]);
        assert(r.error_list() =~= seq![error]);
        assert(r.error_views() =~= seq![error.view()]);
        r
    }

    /// Appends another output after this one.
    fn add(&mut self, other: Self)
        ensures
            final(self).trees() == old(self).trees() + other.trees(),
            final(self).error_list() == old(self).error_list() + other.error_list(),
            final(self).error_views() == old(self).error_views() + other.error_views(),
    {
        let ghost other_inner = other.inner@;
        let ghost other_views = other.error_views();
        let ghost other_errors = other.errors@;
        let mut other = other;
        self.errors.append(&mut other.errors);
        self.inner.append(&mut other.inner);
        assert(child_trees(self.inner@) =~= child_trees(old(self).inner@) + child_trees(other_inner));
        assert(self.errors@ == old(self).errors@ + other_errors);
        assert(self.error_views() =~= old(self).error_views() + other_views);
    }

    /// The whole output wrapped in one node.
    fn into_node(self, kind: u16) -> (r: Self)
        requires
            4 * char_count(leaves(self.trees())) <= u32::MAX,
        ensures
            r.trees() == seq![SyntaxTree::Branch(kind, self.trees())],
            r.error_list() == self.error_list(),
            r.error_views() == self.error_views(),
    {
        let Children { errors, inner } = self;
        let node = green_node(kind, inner);
        let mut out: Vec<Child> = Vec::new();
        out.push(Child::Node(node));
        let r = Children { errors, inner: out };
        assert(r.trees() =~= seq![SyntaxTree::Branch(kind, self.trees())]);
        r
    }
}

// ---------------------------------------------------------------------------
// Running rules

/// The byte offset where the cursor's stream ends.
pub open spec fn end_of<'a, 'src>(input: Input<'a, 'src>) -> int {
    (input.pos() + byte_count(input.rem())) as int
}

/// What a successful run hands back, read as an outcome.
pub open spec fn outcome_of<'a, 'src>(out: Input<'a, 'src>, c: Children) -> Outcome<'src> {
    Outcome { rest: out.rem(), trees: c.trees(), errors: c.error_views() }
}

/// The next significant token, with the trivia before it, if it has the kind.
fn match_token<'a, 'src, L: RowanNomLanguage>(kind: u16, input: Input<'a, 'src>) -> (r: Result<
    (Input<'a, 'src>, Children),
    Error,
>)
    requires
        input.wf::<L>(),
    ensures
        match r {
            Ok((out, c)) => run::<L>(Rule::Token(kind), input.rem(), end_of(input)) == Ok::<
                Outcome,
                ErrorView,
            >(outcome_of(out, c)) && out.wf::<L>() && end_of(out) == end_of(input),
            Err(e) => run::<L>(Rule::Token(kind), input.rem(), end_of(input)) == Err::<
                Outcome,
                ErrorView,
            >(e.view()),
        },
{
    proof {
        lemma_trivia_run::<L>(input.trivia_tokens@, input.tokens@);
        lemma_byte_append(input.trivia_tokens@, input.tokens@);
    }
    let ghost n = input.trivia_tokens@.len() as int;
    let ghost rem = input.rem();
    if input.tokens.len() > 0 {
        let (current, text) = input.tokens[0];
        assert(rem[n] == input.tokens@[0]);
        if current == kind {
            let children = Children::from_tokens(input.trivia_tokens, (current, text));
            let out = input.next::<L>();
            proof {
                assert(rem.take(n + 1) =~= input.trivia_tokens@.push((current, text)));
                assert(rem.skip(n + 1) =~= input.tokens@.drop_first());
            }
            Ok((out, children))
        } else {
            let start = input.src_pos + input.trivia_tokens_text_len;
            assert(rem.skip(n) =~= input.tokens@);
            assert(offset_of(rem.skip(n), end_of(input)) == start);
            Err(Error::from_unexpected_token(start, start + text.len(), kind, current))
        }
    } else {
        assert(input.tokens@ =~= Seq::<(u16, &str)>::empty());
        assert(byte_count(input.tokens@) == 0);
        assert(end_of(input) == input.src_pos + input.trivia_tokens_text_len);
        Err(Error::from_unexpected_eof(input.src_pos + input.trivia_tokens_text_len))
    }
}


/// Runs `p` as long as it succeeds and consumes something.
fn parse_many<'a, 'src, L: RowanNomLanguage>(p: &Rule, input: Input<'a, 'src>) -> (r: (
    Input<'a, 'src>,
    Children,
))
    requires
        input.wf::<L>(),
    ensures
        many_from::<L>(*p, input.rem(), end_of(input)) == outcome_of(r.0, r.1),
        r.0.wf::<L>(),
        end_of(r.0) == end_of(input),
    decreases p, 1nat,
{
    let mut cur = input;
    let mut acc = Children::empty();
    let mut done = false;
    while !done
        invariant
            cur.wf::<L>(),
            end_of(cur) == end_of(input),
            !done ==> ({
                let m = many_from::<L>(*p, cur.rem(), end_of(input));
                many_from::<L>(*p, input.rem(), end_of(input)) == Outcome {
                    rest: m.rest,
                    trees: acc.trees() + m.trees,
                    errors: acc.error_views() + m.errors,
                }
            }),
            done ==> many_from::<L>(*p, input.rem(), end_of(input)) == outcome_of(cur, acc),
        decreases cur.rem().len() + (if done { 0int } else { 1int }),
    {
        if cur.input_len::<L>() == 0 {
            done = true;
            assert(acc.trees() + Seq::<SyntaxTree>::empty() =~= acc.trees());
            assert(acc.error_views() + Seq::<ErrorView>::empty() =~= acc.error_views());
        } else {
            match p.parse::<L>(cur) {
                Ok((next, c)) => {
                    if next.input_len::<L>() < cur.input_len::<L>() {
                        let ghost acc_trees = acc.trees();
                        let ghost c_trees = c.trees();
                        let ghost c_errors = c.error_views();
                        let ghost acc_errors = acc.error_views();
                        let ghost m = many_from::<L>(*p, next.rem(), end_of(input));
                        acc.add(c);
                        cur = next;
                        assert(acc_trees + (c_trees + m.trees) =~= acc.trees()
                            + m.trees);
                        assert(acc_errors + (c_errors + m.errors) =~= acc.error_views()
                            + m.errors);
                    } else {
                        done = true;
                        assert(acc.trees() + Seq::<SyntaxTree>::empty()
                            =~= acc.trees());
                        assert(acc.error_views() + Seq::<ErrorView>::empty()
                            =~= acc.error_views());
                    }
                },
                Err(_) => {
                    done = true;
                    assert(acc.trees() + Seq::<SyntaxTree>::empty() =~= acc.trees());
                    assert(acc.error_views() + Seq::<ErrorView>::empty() =~= acc.error_views());
                },
            }
        }
    }
    (cur, acc)
}

impl Rule {
    /// Runs the rule on the cursor. On success, hands back the cursor past
    /// what was consumed and the output; on failure, the error, and the
    /// caller keeps its own cursor.
    pub fn parse<'a, 'src, L: RowanNomLanguage>(&self, input: Input<'a, 'src>) -> (r: Result<
        (Input<'a, 'src>, Children),
        Error,
    >)
        requires
            input.wf::<L>(),
        ensures
            match r {
                Ok((out, c)) => run::<L>(*self, input.rem(), end_of(input)) == Ok::<
                    Outcome,
                    ErrorView,
                >(outcome_of(out, c)) && out.wf::<L>() && end_of(out) == end_of(input),
                Err(e) => run::<L>(*self, input.rem(), end_of(input)) == Err::<Outcome, ErrorView>(
                    e.view(),
                ),
            },
        decreases self, 0nat,
    {
        match self {
            Rule::Token(k) => match_token::<L>(*k, input),
            Rule::Join(a, b) => match a.parse::<L>(input) {
                Err(e) => Err(e),
                Ok((mid, first)) => match b.parse::<L>(mid) {
                    Err(e) => Err(e),
                    Ok((out, second)) => {
                        let mut all = first;
                        all.add(second);
                        Ok((out, all))
                    },
                },
            },
            Rule::Alt(a, b) => match a.parse::<L>(input) {
                Ok(x) => Ok(x),
                Err(_) => b.parse::<L>(input),
            },
            Rule::Many0(p) => Ok(parse_many::<L>(p, input)),
            Rule::Node(k, p) => match p.parse::<L>(input) {
                Err(e) => Err(e),
                Ok((out, c)) => {
                    proof {
                        lemma_run_lossless::<L>(**p, input.rem(), end_of(input));
                        lemma_text_append(leaves(c.trees()), tok_models(out.rem()));
                    }
                    Ok((out, c.into_node(*k)))
                },
            },
            Rule::Fallible(p) => match p.parse::<L>(input) {
                Ok(x) => Ok(x),
                Err(e) => Ok((input, Children::from_err::<L>(e))),
            },
            Rule::FallibleWith(p, ctx) => match p.parse::<L>(input) {
                Ok(x) => Ok(x),
                Err(e) => Ok((input, Children::from_err::<L>(e.with_context(ctx.as_str())))),
            },
        }
    }
}

/// Runs the rule and wraps all it built in one root node; hands back the
/// cursor past what was consumed, the root and the errors recorded.
pub fn root_node<'a, 'src, L: RowanNomLanguage>(
    kind: u16,
    parser: &Rule,
    input: Input<'a, 'src>,
) -> (r: Result<(Input<'a, 'src>, (rowan::GreenNode, Vec<Error>)), Error>)
    requires
        input.wf::<L>(),
    ensures
        match r {
            Ok((out, (root, errors))) => match run::<L>(*parser, input.rem(), end_of(input)) {
                Ok(o) => o.rest == out.rem() && green_node_model(root) == SyntaxTree::Branch(
                    kind,
                    o.trees,
                ) && errors@.map_values(|e: Error| e.view()) == o.errors,
                Err(_) => false,
            },
            Err(e) => run::<L>(*parser, input.rem(), end_of(input)) == Err::<Outcome, ErrorView>(
                e.view(),
            ),
        },
{
    match parser.parse::<L>(input) {
        Err(e) => Err(e),
        Ok((out, c)) => {
            proof {
                lemma_run_lossless::<L>(*parser, input.rem(), end_of(input));
                lemma_text_append(leaves(c.trees()), tok_models(out.rem()));
            }
            let Children { errors, inner } = c;
            let root = green_node(kind, inner);
            Ok((out, (root, errors)))
        },
    }
}

// ---------------------------------------------------------------------------
// Building rules

/// One token of the kind.
pub fn t(kind: u16) -> (r: Rule)
    ensures
        r == Rule::Token(kind),
{
    Rule::Token(kind)
}

/// The rule's output wrapped in a node of the kind.
pub fn node(kind: u16, parser: Rule) -> (r: Rule)
    ensures
        r == Rule::Node(kind, Box::new(parser)),
{
    Rule::Node(kind, Box::new(parser))
}

/// Ordered choice: the first rule, or the second where the first fails.
pub fn alt(first: Rule, second: Rule) -> (r: Rule)
    ensures
        r == Rule::Alt(Box::new(first), Box::new(second)),
{
    Rule::Alt(Box::new(first), Box::new(second))
}

/// The rule repeated until it fails or stops making progress.
pub fn many0(parser: Rule) -> (r: Rule)
    ensures
        r == Rule::Many0(Box::new(parser)),
{
    Rule::Many0(Box::new(parser))
}

/// The rule, or an error node and the error where it fails.
pub fn fallible(parser: Rule) -> (r: Rule)
    ensures
        r == Rule::Fallible(Box::new(parser)),
{
    Rule::Fallible(Box::new(parser))
}

/// The rule, or an error node and the error wrapped in `context`.
pub fn fallible_with(parser: Rule, context: String) -> (r: Rule)
    ensures
        r == Rule::FallibleWith(Box::new(parser), context),
{
    Rule::FallibleWith(Box::new(parser), context)
}

/// The rules in sequence, as one rule.
pub open spec fn sequence(rules: Seq<Rule>) -> Rule
    decreases rules.len(),
{
    if rules.len() <= 1 {
        rules[0]
    } else {
        Rule::Join(Box::new(rules[0]), Box::new(sequence(rules.drop_first())))
    }
}

proof fn lemma_sequence_last(front: Seq<Rule>, a: Rule, b: Rule)
    ensures
        sequence(front.push(a).push(b)) == sequence(
            front.push(Rule::Join(Box::new(a), Box::new(b))),
        ),
    decreases front.len(),
{
    if front.len() == 0 {
        assert(front.push(a).push(b).drop_first() =~= seq![b]);
        assert(front.push(a).push(b)[0] == a);
        assert(seq![b][0] == b);
        assert(sequence(seq![b]) == b);
        assert(front.push(Rule::Join(Box::new(a), Box::new(b)))[0] == Rule::Join(
            Box::new(a),
            Box::new(b),
        ));
    } else {
        assert(front.push(a).push(b).drop_first() =~= front.drop_first().push(a).push(b));
        assert(front.push(Rule::Join(Box::new(a), Box::new(b))).drop_first()
            =~= front.drop_first().push(Rule::Join(Box::new(a), Box::new(b))));
        lemma_sequence_last(front.drop_first(), a, b);
        assert(front.push(a).push(b)[0] == front[0]);
        assert(front.push(Rule::Join(Box::new(a), Box::new(b)))[0] == front[0]);
    }
}

/// Joins the rules: each runs on what the previous one left, and their
/// outputs are concatenated without a new node.
pub fn join(parsers: Vec<Rule>) -> (r: Rule)
    requires
        parsers@.len() >= 1,
    ensures
        r == sequence(parsers@),
{
    let ghost all = parsers@;
    let mut parsers = parsers;
    let mut acc = parsers.pop().unwrap();
    assert(all =~= parsers@.push(acc));
    while parsers.len() > 0
        invariant
            sequence(all) == sequence(parsers@.push(acc)),
        decreases parsers@.len(),
    {
        let ghost before = parsers@;
        let p = parsers.pop().unwrap();
        proof {
            assert(before =~= parsers@.push(p));
            lemma_sequence_last(parsers@, p, acc);
        }
        acc = Rule::Join(Box::new(p), Box::new(acc));
    }
    assert(parsers@.push(acc) =~= seq![acc]);
    acc
}

proof fn lemma_trivia_run_props<L: RowanNomLanguage>(ts: Seq<(u16, &str)>)
    ensures
        trivia_run::<L>(ts) <= ts.len(),
        forall|i: int| 0 <= i < trivia_run::<L>(ts) ==> L::spec_is_trivia(#[trigger] ts[i].0),
        trivia_run::<L>(ts) < ts.len() ==> !L::spec_is_trivia(ts[trivia_run::<L>(ts) as int].0),
    decreases ts.len(),
{
    if ts.len() > 0 && L::spec_is_trivia(ts[0].0) {
        lemma_trivia_run_props::<L>(ts.drop_first());
        assert forall|i: int| 0 <= i < trivia_run::<L>(ts) implies L::spec_is_trivia(
            #[trigger] ts[i].0,
        ) by {
            if i > 0 {
                assert(ts[i] == ts.drop_first()[i - 1]);
            }
        }
    }
}

proof fn lemma_trivia_run_prefix<L: RowanNomLanguage>(a: Seq<(u16, &str)>, b: Seq<(u16, &str)>)
    requires
        trivia_run::<L>(a) < a.len(),
    ensures
        trivia_run::<L>(a + b) == trivia_run::<L>(a),
    decreases a.len(),
{
    assert((a + b)[0] == a[0]);
    if L::spec_is_trivia(a[0].0) {
        assert((a + b).drop_first() =~= a.drop_first() + b);
        lemma_trivia_run_prefix::<L>(a.drop_first(), b);
    }
}

proof fn lemma_byte_one(t: (u16, &str))
    ensures
        byte_count(seq![t]) == t.1.spec_bytes().len(),
{
    assert(seq![t].drop_first() =~= Seq::<(u16, &str)>::empty());
    assert(seq![t][0] == t);
    assert(byte_count(Seq::<(u16, &str)>::empty()) == 0);
}

/// A missing token under `fallible` does not stop the parse: in
/// `Let, fallible(Ident), Equal` run on a `Let` token and an `Equal` token,
/// an empty error node stands where the identifier was expected, the one
/// error recorded says that `Equal` was found over its own bytes where an
/// identifier was expected, and the trailing `Equal` is still matched.
pub proof fn lemma_recovery_continues<'src, L: RowanNomLanguage>(
    let_kind: u16,
    ident_kind: u16,
    equal_kind: u16,
    rem: Seq<(u16, &'src str)>,
    end: int,
)
    requires
        rem.len() == 2,
        rem[0].0 == let_kind,
        rem[1].0 == equal_kind,
        equal_kind != ident_kind,
        !L::spec_is_trivia(let_kind),
        !L::spec_is_trivia(equal_kind),
    ensures
        run::<L>(
            sequence(seq![Rule::Token(let_kind), Rule::Fallible(Box::new(Rule::Token(ident_kind))), Rule::Token(equal_kind)]),
            rem,
            end,
        ) == Ok::<Outcome, ErrorView>(
            Outcome {
                rest: Seq::<(u16, &'src str)>::empty(),
                trees: seq![
                    SyntaxTree::Leaf(let_kind, rem[0].1@),
                    SyntaxTree::Branch(L::spec_error_kind(), seq![]),
                    SyntaxTree::Leaf(equal_kind, rem[1].1@),
                ],
                errors: seq![
                    token_error(end - rem[1].1.spec_bytes().len(), end, ident_kind, equal_kind),
                ],
            },
        ),
{
    let rules = seq![
        Rule::Token(let_kind),
        Rule::Fallible(Box::new(Rule::Token(ident_kind))),
        Rule::Token(equal_kind),
    ];
    assert(rules.drop_first() =~= seq![rules[1], rules[2]]);
    assert(rules.drop_first().drop_first() =~= seq![rules[2]]);
    assert(sequence(seq![rules[2]]) == rules[2]);
    assert(rules.drop_first()[0] == rules[1]);
    assert(rules.drop_first().len() == 2);
    assert(sequence(rules.drop_first()) == Rule::Join(
        Box::new(rules[1]),
        Box::new(sequence(rules.drop_first().drop_first())),
    ));
    assert(sequence(rules) == Rule::Join(
        Box::new(rules[0]),
        Box::new(Rule::Join(Box::new(rules[1]), Box::new(rules[2]))),
    ));
    let after = rem.skip(1);
    assert(trivia_run::<L>(rem) == 0);
    assert(after[0] == rem[1]);
    assert(trivia_run::<L>(after) == 0);
    assert(rem.take(1) =~= seq![rem[0]]);
    assert(after.take(1) =~= seq![rem[1]]);
    assert(after.skip(1) =~= Seq::<(u16, &'src str)>::empty());
    assert(after.skip(0) =~= seq![rem[1]]);
    lemma_byte_one(rem[1]);
    assert(leaf_trees(seq![rem[0]]) =~= seq![SyntaxTree::Leaf(let_kind, rem[0].1@)]);
    assert(leaf_trees(seq![rem[1]]) =~= seq![SyntaxTree::Leaf(equal_kind, rem[1].1@)]);
    let e = token_error(end - rem[1].1.spec_bytes().len(), end, ident_kind, equal_kind);
    let o1 = Outcome {
        rest: after,
        trees: seq![SyntaxTree::Leaf(let_kind, rem[0].1@)],
        errors: seq![],
    };
    assert(run::<L>(rules[0], rem, end) == Ok::<Outcome, ErrorView>(o1));
    assert(run::<L>(Rule::Token(ident_kind), after, end) == Err::<Outcome, ErrorView>(e));
    let o2 = Outcome {
        rest: after,
        trees: seq![SyntaxTree::Branch(L::spec_error_kind(), seq![])],
        errors: seq![e],
    };
    assert(run::<L>(rules[1], after, end) == Ok::<Outcome, ErrorView>(o2));
    let o3 = Outcome {
        rest: Seq::<(u16, &'src str)>::empty(),
        trees: seq![SyntaxTree::Leaf(equal_kind, rem[1].1@)],
        errors: seq![],
    };
    assert(run::<L>(rules[2], after, end) == Ok::<Outcome, ErrorView>(o3));
    let inner = Rule::Join(Box::new(rules[1]), Box::new(rules[2]));
    let o23 = Outcome { rest: o3.rest, trees: o2.trees + o3.trees, errors: o2.errors + o3.errors };
    assert(run::<L>(inner, after, end) == Ok::<Outcome, ErrorView>(o23));
    let total = Outcome {
        rest: o3.rest,
        trees: o1.trees + o23.trees,
        errors: o1.errors + o23.errors,
    };
    assert(run::<L>(Rule::Join(Box::new(rules[0]), Box::new(inner)), rem, end) == Ok::<
        Outcome,
        ErrorView,
    >(total));
    assert(o1.errors + o23.errors =~= seq![e]);
    assert(seq![SyntaxTree::Leaf(let_kind, rem[0].1@)] + (seq![
        SyntaxTree::Branch(L::spec_error_kind(), seq![]),
    ] + seq![SyntaxTree::Leaf(equal_kind, rem[1].1@)]) =~= seq![
        SyntaxTree::Leaf(let_kind, rem[0].1@),
        SyntaxTree::Branch(L::spec_error_kind(), seq![]),
        SyntaxTree::Leaf(equal_kind, rem[1].1@),
    ]);
}

/// Repetition of one token kind consumes exactly the leading run `pre` of
/// tokens of that kind, each with the trivia before it, and stops before
/// the first significant token of another kind; with no such tokens ahead
/// it succeeds with nothing and leaves the tokens as they were.
pub proof fn lemma_many0_token<'src, L: RowanNomLanguage>(
    kind: u16,
    pre: Seq<(u16, &'src str)>,
    post: Seq<(u16, &'src str)>,
    end: int,
)
    requires
        !L::spec_is_trivia(kind),
        forall|i: int| 0 <= i < pre.len() ==> L::spec_is_trivia(#[trigger] pre[i].0) || pre[i].0 == kind,
        pre.len() > 0 ==> pre.last().0 == kind,
        trivia_run::<L>(post) < post.len() ==> post[trivia_run::<L>(post) as int].0 != kind,
    ensures
        run::<L>(Rule::Many0(Box::new(Rule::Token(kind))), pre + post, end) == Ok::<Outcome, ErrorView>(
            Outcome { rest: post, trees: leaf_trees(pre), errors: seq![] },
        ),
    decreases pre.len(),
{
    let p = Rule::Token(kind);
    let rem = pre + post;
    if pre.len() == 0 {
        assert(rem =~= post);
        assert(leaf_trees(pre) =~= Seq::<SyntaxTree>::empty());
        if rem.len() > 0 {
            assert(run::<L>(p, rem, end) is Err);
        }
        assert(many_from::<L>(p, rem, end) == empty_outcome(rem));
    } else {
        lemma_trivia_run_props::<L>(pre);
        let n = trivia_run::<L>(pre) as int;
        if n == pre.len() {
            assert(L::spec_is_trivia(pre[pre.len() - 1].0));
        }
        lemma_trivia_run_prefix::<L>(pre, post);
        assert(rem[n] == pre[n]);
        let next = pre.skip(n + 1);
        assert(rem.skip(n + 1) =~= next + post);
        assert(rem.take(n + 1) =~= pre.take(n + 1));
        assert(run::<L>(p, rem, end) == Ok::<Outcome, ErrorView>(
            Outcome { rest: next + post, trees: leaf_trees(pre.take(n + 1)), errors: seq![] },
        ));
        assert forall|i: int| 0 <= i < next.len() implies L::spec_is_trivia(#[trigger] next[i].0)
            || next[i].0 == kind by {
            assert(next[i] == pre[i + n + 1]);
        }
        if next.len() > 0 {
            assert(next.last() == pre.last());
        }
        lemma_many0_token::<L>(kind, next, post, end);
        assert(run::<L>(Rule::Many0(Box::new(p)), next + post, end) == Ok::<Outcome, ErrorView>(
            many_from::<L>(p, next + post, end),
        ));
        assert(leaf_trees(pre) =~= leaf_trees(pre.take(n + 1)) + leaf_trees(next));
        assert(Seq::<ErrorView>::empty() + Seq::<ErrorView>::empty() =~= Seq::<ErrorView>::empty());
        assert((next + post).len() < rem.len());
        assert(rem.len() > 0);
        assert(many_from::<L>(p, rem, end) == Outcome {
            rest: post,
            trees: leaf_trees(pre.take(n + 1)) + leaf_trees(next),
            errors: Seq::<ErrorView>::empty() + Seq::<ErrorView>::empty(),
        });
    }
}

/// The trivia in front of a matched token goes out with it, ahead of it and
/// in order: also the trivia that opens a file.
pub proof fn lemma_leading_trivia_attached<'src, L: RowanNomLanguage>(
    kind: u16,
    rem: Seq<(u16, &'src str)>,
    end: int,
)
    requires
        trivia_run::<L>(rem) < rem.len(),
        rem[trivia_run::<L>(rem) as int].0 == kind,
    ensures
        ({
            let n = trivia_run::<L>(rem) as int;
            run::<L>(Rule::Token(kind), rem, end) == Ok::<Outcome, ErrorView>(
                Outcome {
                    rest: rem.skip(n + 1),
                    trees: leaf_trees(rem.take(n)).push(SyntaxTree::Leaf(kind, rem[n].1@)),
                    errors: seq![],
                },
            )
        }),
{
    let n = trivia_run::<L>(rem) as int;
    assert(leaf_trees(rem.take(n + 1)) =~= leaf_trees(rem.take(n)).push(
        SyntaxTree::Leaf(kind, rem[n].1@),
    ));
}

} // verus!
