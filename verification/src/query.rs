//! The query layer: a builder of AND-combined filter criteria, executed
//! by driving the traversal cursor under a scope and an exclusion set and
//! keeping every node that matches all set criteria.
use crate::stack::{
    cursor_ok, preorder_from, remaining, same_shape, spec_render_tag, SegView, Stack, StackView,
};
use crate::text::{contains_sub, has_segment, string_pairs_view};
use crate::token::{attrs_lookup, tokens_view, Token, TokenView};
use crate::token_iter::TokenIter;
use vstd::prelude::*;

verus! {

/// The mathematical value of a criteria set.  An empty text criterion is
/// unset and matches every node.
#[verifier::ext_equal]
pub ghost struct CritView {
    /// The scope: only proper descendants of this id are searched.
    pub parent_id: usize,
    /// The required tag name.
    pub tag: Seq<char>,
    /// The required value of the `id` attribute.
    pub id: Seq<char>,
    /// A required member of the whitespace-separated `class` attribute.
    pub class: Seq<char>,
    /// An attribute that must hold exactly `attr_value`.
    pub attr_key: Seq<char>,
    /// The required value of `attr_key`.
    pub attr_value: Seq<char>,
    /// An attribute that must hold `attr_contains_value` as a substring.
    pub attr_contains_key: Seq<char>,
    /// The required substring of `attr_contains_key`.
    pub attr_contains_value: Seq<char>,
    /// The required exact recorded contents.
    pub contents: Seq<char>,
    /// The required substring of the recorded contents.
    pub contents_contains: Seq<char>,
    /// Subtree roots hidden from the search.
    pub excludes: Seq<usize>,
}

/// The accumulated filter criteria of one search.
pub struct SearchCriteria {
    pub parent_id: usize,
    pub tag: String,
    pub id: String,
    pub class: String,
    pub attr_key: String,
    pub attr_value: String,
    pub attr_contains_key: String,
    pub attr_contains_value: String,
    pub contents: String,
    pub contents_contains: String,
    pub excludes: Vec<usize>,
}

impl View for SearchCriteria {
    type V = CritView;

    open spec fn view(&self) -> CritView {
        CritView {
            parent_id: self.parent_id,
            tag: self.tag@,
            id: self.id@,
            class: self.class@,
            attr_key: self.attr_key@,
            attr_value: self.attr_value@,
            attr_contains_key: self.attr_contains_key@,
            attr_contains_value: self.attr_contains_value@,
            contents: self.contents@,
            contents_contains: self.contents_contains@,
            excludes: self.excludes@,
        }
    }
}

/// The criteria set with nothing required, scoped to `parent`.
pub open spec fn empty_crit(parent: usize) -> CritView {
    CritView {
        parent_id: parent,
        tag: Seq::empty(),
        id: Seq::empty(),
        class: Seq::empty(),
        attr_key: Seq::empty(),
        attr_value: Seq::empty(),
        attr_contains_key: Seq::empty(),
        attr_contains_value: Seq::empty(),
        contents: Seq::empty(),
        contents_contains: Seq::empty(),
        excludes: Seq::empty(),
    }
}

/// Whether a node meets every set criterion: the tag name exactly, the
/// `id` attribute exactly, membership in the whitespace-separated
/// `class` attribute, an attribute equality, an attribute substring, the
/// recorded contents exactly, and a contents substring.
pub open spec fn crit_matches(c: CritView, t: TokenView) -> bool {
    &&& (c.tag.len() > 0 ==> t.tag == c.tag)
    &&& (c.id.len() > 0 ==> attrs_lookup(t.attrs, seq!['i', 'd']) == Some(c.id))
    &&& (c.class.len() > 0 ==> match attrs_lookup(t.attrs, seq!['c', 'l', 'a', 's', 's']) {
        Some(v) => has_segment(v, c.class),
        None => false,
    })
    &&& (c.attr_key.len() > 0 ==> attrs_lookup(t.attrs, c.attr_key) == Some(c.attr_value))
    &&& (c.attr_contains_key.len() > 0 ==> match attrs_lookup(t.attrs, c.attr_contains_key) {
        Some(v) => contains_sub(v, c.attr_contains_value),
        None => false,
    })
    &&& (c.contents.len() > 0 ==> t.contents == c.contents)
    &&& (c.contents_contains.len() > 0 ==> contains_sub(t.contents, c.contents_contains))
}

/// A store made of a buffer and an arena alone: what rendering reads.
pub open spec fn doc_of(code: Seq<SegView>, toks: Seq<Option<TokenView>>) -> StackView {
    StackView {
        parent_id: 0,
        tokens: toks,
        children: Seq::empty(),
        code,
        position: 0,
        parent_position: 0,
        excludes: Seq::empty(),
    }
}

/// One visited id: a stored node meeting every criterion is handed out
/// with its contents refreshed to its fully rendered slice, and, when
/// that slice is non-empty, the refreshed contents are also written back
/// to the stored node; anything else leaves the store alone and hands
/// out nothing.
pub open spec fn refresh_step(
    code: Seq<SegView>,
    toks: Seq<Option<TokenView>>,
    id: usize,
    c: CritView,
) -> (Seq<Option<TokenView>>, Seq<TokenView>) {
    if (id as int) < toks.len() && toks[id as int] is Some {
        let t = toks[id as int].unwrap();
        if crit_matches(c, t) {
            let rendered = spec_render_tag(doc_of(code, toks), id);
            if rendered.len() > 0 {
                let t2 = TokenView { contents: rendered, ..t };
                (toks.update(id as int, Some(t2)), seq![t2])
            } else {
                (toks, seq![t])
            }
        } else {
            (toks, Seq::empty())
        }
    } else {
        (toks, Seq::empty())
    }
}

/// A whole search over the visited ids, in order: the arena as the
/// search leaves it, with each kept node's contents refreshed in place,
/// and the nodes handed out.
pub open spec fn search_fold(
    code: Seq<SegView>,
    toks: Seq<Option<TokenView>>,
    ids: Seq<usize>,
    c: CritView,
) -> (Seq<Option<TokenView>>, Seq<TokenView>)
    decreases ids.len(),
{
    if ids.len() == 0 {
        (toks, Seq::empty())
    } else {
        let step = refresh_step(code, toks, ids[0], c);
        let rest = search_fold(code, step.0, ids.drop_first(), c);
        (rest.0, step.1 + rest.1)
    }
}

/// Whether the node meets every set criterion, as `crit_matches`.
fn matches_crit(crit: &SearchCriteria, t: &Token) -> (r: bool)
    ensures
        r == crit_matches(crit@, t@),
{
    proof {
        reveal_strlit("id");
        reveal_strlit("class");
        assert("id"@ =~= seq!['i', 'd']);
        assert("class"@ =~= seq!['c', 'l', 'a', 's', 's']);
    }
    if !crit.tag.as_str().is_empty() {
        let tag = t.tag();
        if !(tag == crit.tag) {
            return false;
        }
    }
    if !crit.id.as_str().is_empty() {
        if !t.attr_equals("id", crit.id.as_str()) {
            return false;
        }
    }
    if !crit.class.as_str().is_empty() {
        if !t.attr_has_segment("class", crit.class.as_str()) {
            return false;
        }
    }
    if !crit.attr_key.as_str().is_empty() {
        if !t.attr_equals(crit.attr_key.as_str(), crit.attr_value.as_str()) {
            return false;
        }
    }
    if !crit.attr_contains_key.as_str().is_empty() {
        if !t.attr_contains(crit.attr_contains_key.as_str(), crit.attr_contains_value.as_str()) {
            return false;
        }
    }
    if !crit.contents.as_str().is_empty() {
        let contents = t.contents();
        if !(contents == crit.contents) {
            return false;
        }
    }
    if !crit.contents_contains.as_str().is_empty() {
        let contents = t.contents();
        let hay = crate::text::str_to_chars(contents.as_str());
        let needle = crate::text::str_to_chars(crit.contents_contains.as_str());
        if !crate::text::contains_chars(&hay, &needle) {
            return false;
        }
    }
    true
}

/// A builder of search criteria over one store.
pub struct Query {
    criteria: SearchCriteria,
}

impl View for Query {
    type V = CritView;

    closed spec fn view(&self) -> CritView {
        self.criteria@
    }
}

impl Query {
    /// A query with nothing required: it matches every node of the
    /// document.
    pub fn new() -> (r: Query)
        ensures
            r@ == empty_crit(0),
    {
        let criteria = SearchCriteria {
            parent_id: 0,
            tag: String::new(),
            id: String::new(),
            class: String::new(),
            attr_key: String::new(),
            attr_value: String::new(),
            attr_contains_key: String::new(),
            attr_contains_value: String::new(),
            contents: String::new(),
            contents_contains: String::new(),
            excludes: Vec::new(),
        };
        let r = Query { criteria };
        proof {
            assert(r@ =~= empty_crit(0));
        }
        r
    }

    /// Bounds the search to the proper descendants of `parent_id`.
    pub fn parent_id(self, parent_id: &usize) -> (r: Self)
        ensures
            r@ == (CritView { parent_id: *parent_id, ..self@ }),
    {
        let mut q = self;
        q.criteria.parent_id = *parent_id;
        q
    }

    /// Requires the tag name.
    pub fn tag(self, tag: &str) -> (r: Self)
        ensures
            r@ == (CritView { tag: tag@, ..self@ }),
    {
        let mut q = self;
        q.criteria.tag = tag.to_owned();
        q
    }

    /// Requires the `id` attribute.
    pub fn id(self, id: &str) -> (r: Self)
        ensures
            r@ == (CritView { id: id@, ..self@ }),
    {
        let mut q = self;
        q.criteria.id = id.to_owned();
        q
    }

    /// Requires membership in the whitespace-separated `class` attribute.
    pub fn class(self, class: &str) -> (r: Self)
        ensures
            r@ == (CritView { class: class@, ..self@ }),
    {
        let mut q = self;
        q.criteria.class = class.to_owned();
        q
    }

    /// Requires an attribute to hold exactly `value`.
    pub fn attr(self, key: &str, value: &str) -> (r: Self)
        ensures
            r@ == (CritView { attr_key: key@, attr_value: value@, ..self@ }),
    {
        let mut q = self;
        q.criteria.attr_key = key.to_owned();
        q.criteria.attr_value = value.to_owned();
        q
    }

    /// Requires an attribute to hold `value` as a substring.
    pub fn attr_contains(self, key: &str, value: &str) -> (r: Self)
        ensures
            r@ == (CritView { attr_contains_key: key@, attr_contains_value: value@, ..self@ }),
    {
        let mut q = self;
        q.criteria.attr_contains_key = key.to_owned();
        q.criteria.attr_contains_value = value.to_owned();
        q
    }

    /// Requires the recorded contents exactly.
    pub fn contents(self, contents: &str) -> (r: Self)
        ensures
            r@ == (CritView { contents: contents@, ..self@ }),
    {
        let mut q = self;
        q.criteria.contents = contents.to_owned();
        q
    }

    /// Requires the recorded contents to hold `search` as a substring.
    pub fn contents_contains(self, search: &str) -> (r: Self)
        ensures
            r@ == (CritView { contents_contains: search@, ..self@ }),
    {
        let mut q = self;
        q.criteria.contents_contains = search.to_owned();
        q
    }

    /// Hides one more subtree from the search.
    pub fn exclude(self, token_id: usize) -> (r: Self)
        ensures
            r@ == (CritView { excludes: self@.excludes.push(token_id), ..self@ }),
    {
        let mut q = self;
        q.criteria.excludes.push(token_id);
        q
    }

    /// Replaces the hidden subtrees.
    pub fn excludes(self, token_ids: &Vec<usize>) -> (r: Self)
        ensures
            r@ == (CritView { excludes: token_ids@, ..self@ }),
    {
        let mut q = self;
        let mut copy: Vec<usize> = Vec::new();
        let mut i: usize = 0;
        while i < token_ids.len()
            invariant
                i <= token_ids@.len(),
                copy@ == token_ids@.take(i as int),
            decreases token_ids@.len() - i,
        {
            copy.push(token_ids[i]);
            i = i + 1;
            proof {
                assert(copy@ =~= token_ids@.take(i as int));
            }
        }
        proof {
            assert(token_ids@.take(token_ids@.len() as int) =~= token_ids@);
        }
        q.criteria.excludes = copy;
        q
    }

    /// Runs the search: a single pre-order pass over the scope, testing
    /// each node against every set criterion; each kept node's contents
    /// are refreshed to its rendered slice, in the store and in the
    /// handed-out copy.
    fn search(&self, stack: &mut Stack) -> (r: Vec<Token>)
        requires
            old(stack)@.wf(),
        ensures
            final(stack)@.wf(),
            cursor_ok(final(stack)@),
            final(stack)@.tokens == search_fold(
                old(stack)@.code,
                old(stack)@.tokens,
                preorder_from(old(stack)@.tree(), self@.parent_id, self@.excludes),
                self@,
            ).0,
            tokens_view(r@) == search_fold(
                old(stack)@.code,
                old(stack)@.tokens,
                preorder_from(old(stack)@.tree(), self@.parent_id, self@.excludes),
                self@,
            ).1,
            final(stack)@.children == old(stack)@.children,
            final(stack)@.code == old(stack)@.code,
            final(stack)@.parent_id == old(stack)@.parent_id,
            final(stack)@.parent_position == self@.parent_id,
            final(stack)@.excludes == self@.excludes,
            remaining(final(stack)@).len() == 0,
    {
        let ghost sv0 = stack@;
        stack.set_parent_position(&self.criteria.parent_id);
        stack.set_excludes(&self.criteria.excludes);
        proof {
            assert(stack@.tree() =~= sv0.tree());
            assert(remaining(stack@) =~= preorder_from(sv0.tree(), self@.parent_id, self@.excludes));
            assert(cursor_ok(stack@));
        }
        let ghost full = preorder_from(sv0.tree(), self@.parent_id, self@.excludes);
        let ghost goal = search_fold(sv0.code, sv0.tokens, full, self@);
        let mut out: Vec<Token> = Vec::new();
        loop
            invariant
                sv0 == old(stack)@,
                stack@.wf(),
                cursor_ok(stack@),
                same_shape(sv0.tree(), stack@.tree()),
                stack@.children == sv0.children,
                stack@.code == sv0.code,
                stack@.parent_id == sv0.parent_id,
                stack@.parent_position == self@.parent_id,
                stack@.excludes == self@.excludes,
                full == preorder_from(sv0.tree(), self@.parent_id, self@.excludes),
                goal == search_fold(sv0.code, sv0.tokens, full, self@),
                goal.0 == search_fold(sv0.code, stack@.tokens, remaining(stack@), self@).0,
                goal.1 == tokens_view(out@) + search_fold(
                    sv0.code,
                    stack@.tokens,
                    remaining(stack@),
                    self@,
                ).1,
            ensures
                stack@.wf(),
                cursor_ok(stack@),
                stack@.children == sv0.children,
                stack@.code == sv0.code,
                stack@.parent_id == sv0.parent_id,
                stack@.parent_position == self@.parent_id,
                stack@.excludes == self@.excludes,
                remaining(stack@).len() == 0,
                stack@.tokens == goal.0,
                tokens_view(out@) == goal.1,
            decreases remaining(stack@).len(),
        {
            let ghost pre = stack@;
            let ghost rem = remaining(pre);
            match stack.pull() {
                None => {
                    proof {
                        assert(search_fold(sv0.code, pre.tokens, rem, self@).0 == pre.tokens);
                        assert(search_fold(sv0.code, pre.tokens, rem, self@).1 == Seq::<
                            TokenView,
                        >::empty());
                        assert(tokens_view(out@) + Seq::<TokenView>::empty() =~= tokens_view(
                            out@,
                        ));
                    }
                    break ;
                },
                Some(t) => {
                    let ghost id0 = rem[0];
                    let ghost mid = stack@;
                    proof {
                        assert(pre.tok(id0) == Some(t@));
                        assert(pre.tree().tok_ok(id0 as int));
                        assert(t@.id == id0);
                        assert(rem.drop_first() =~= rem.skip(1));
                        assert(mid.tree() =~= pre.tree());
                        assert(remaining(mid) == rem.skip(1));
                    }
                    let ghost step = refresh_step(sv0.code, pre.tokens, id0, self@);
                    let keep = matches_crit(&self.criteria, &t);
                    if keep {
                        let id = t.id();
                        let rendered = stack.render_tag(&id);
                        proof {
                            crate::stack::lemma_render_tag_congruent(
                                mid,
                                doc_of(sv0.code, pre.tokens),
                                id,
                            );
                        }
                        let ghost pre_out = tokens_view(out@);
                        if !rendered.as_str().is_empty() {
                            // Write the refreshed contents back to the
                            // stored node, then hand out the same copy.
                            stack.set_token_contents(id, rendered.as_str());
                            proof {
                                let t2 = TokenView { contents: rendered@, ..t@ };
                                assert(stack@.tokens =~= pre.tokens.update(id0 as int, Some(t2)));
                                assert(stack@.tokens == step.0);
                                assert(same_shape(mid.tree(), stack@.tree())) by {
                                    assert forall|i: int|
                                        0 <= i < mid.tokens.len() implies ((
                                        #[trigger] mid.tokens[i]) is Some == (
                                        #[trigger] stack@.tokens[i]) is Some && (
                                        mid.tokens[i] is Some ==> mid.tokens[i].unwrap().parent_id
                                            == stack@.tokens[i].unwrap().parent_id)) by {
                                        if i != id0 as int {
                                            assert(stack@.tokens[i] == mid.tokens[i]);
                                        }
                                    }
                                }
                                assert(same_shape(sv0.tree(), stack@.tree())) by {
                                    assert forall|i: int|
                                        0 <= i < sv0.tokens.len() implies ((
                                        #[trigger] sv0.tokens[i]) is Some == (
                                        #[trigger] stack@.tokens[i]) is Some && (
                                        sv0.tokens[i] is Some ==> sv0.tokens[i].unwrap().parent_id
                                            == stack@.tokens[i].unwrap().parent_id)) by {}
                                }
                                crate::stack::lemma_remaining_shape(stack@, mid);
                                assert(remaining(stack@) == rem.skip(1));
                            }
                            let mut t2 = t;
                            t2.set_contents(rendered.as_str());
                            let ghost t2v = t2@;
                            out.push(t2);
                            proof {
                                let x = out@.last();
                                assert(out@ =~= out@.drop_last().push(x));
                                crate::token::lemma_tokens_view_push(out@.drop_last(), x);
                                assert(step.1 =~= seq![t2v]);
                                assert(tokens_view(out@) =~= pre_out.push(t2v));
                            }
                        } else {
                            out.push(t);
                            proof {
                                let x = out@.last();
                                assert(out@ =~= out@.drop_last().push(x));
                                crate::token::lemma_tokens_view_push(out@.drop_last(), x);
                                assert(step.0 == pre.tokens);
                                assert(step.1 =~= seq![t@]);
                                assert(tokens_view(out@) =~= pre_out.push(t@));
                            }
                        }
                        proof {
                            assert(search_fold(sv0.code, pre.tokens, rem, self@).0 == search_fold(
                                sv0.code,
                                step.0,
                                rem.drop_first(),
                                self@,
                            ).0);
                            assert(search_fold(sv0.code, pre.tokens, rem, self@).1 == step.1
                                + search_fold(sv0.code, step.0, rem.drop_first(), self@).1);
                            assert(goal.1 =~= tokens_view(out@) + search_fold(
                                sv0.code,
                                stack@.tokens,
                                remaining(stack@),
                                self@,
                            ).1) by {
                                assert(pre_out + (step.1 + search_fold(
                                    sv0.code,
                                    step.0,
                                    rem.skip(1),
                                    self@,
                                ).1) =~= (pre_out + step.1) + search_fold(
                                    sv0.code,
                                    step.0,
                                    rem.skip(1),
                                    self@,
                                ).1);
                                assert(pre_out + step.1 =~= tokens_view(out@));
                            }
                        }
                    } else {
                        proof {
                            assert(step.0 == pre.tokens);
                            assert(step.1 =~= Seq::<TokenView>::empty());
                            assert(search_fold(sv0.code, pre.tokens, rem, self@).0 == search_fold(
                                sv0.code,
                                pre.tokens,
                                rem.drop_first(),
                                self@,
                            ).0);
                            assert(search_fold(sv0.code, pre.tokens, rem, self@).1
                                == Seq::<TokenView>::empty() + search_fold(
                                sv0.code,
                                pre.tokens,
                                rem.drop_first(),
                                self@,
                            ).1);
                            assert(Seq::<TokenView>::empty() + search_fold(
                                sv0.code,
                                pre.tokens,
                                rem.skip(1),
                                self@,
                            ).1 =~= search_fold(sv0.code, pre.tokens, rem.skip(1), self@).1);
                        }
                    }
                },
            }
        }
        out
    }

    /// Runs the search and hands the matches out one by one.  The
    /// store's shared cursor is reset to this query's scope and stands
    /// exhausted afterwards; each kept node's contents are refreshed in
    /// the store.
    pub fn iter(self, stack: &mut Stack) -> (r: TokenIter)
        requires
            old(stack)@.wf(),
        ensures
            final(stack)@.wf(),
            cursor_ok(final(stack)@),
            final(stack)@.tokens == search_fold(
                old(stack)@.code,
                old(stack)@.tokens,
                preorder_from(old(stack)@.tree(), self@.parent_id, self@.excludes),
                self@,
            ).0,
            final(stack)@.children == old(stack)@.children,
            final(stack)@.code == old(stack)@.code,
            final(stack)@.parent_id == old(stack)@.parent_id,
            final(stack)@.parent_position == self@.parent_id,
            final(stack)@.excludes == self@.excludes,
            remaining(final(stack)@).len() == 0,
            r@.position == 0,
            r@.tokens == search_fold(
                old(stack)@.code,
                old(stack)@.tokens,
                preorder_from(old(stack)@.tree(), self@.parent_id, self@.excludes),
                self@,
            ).1,
    {
        let v = self.search(stack);
        TokenIter::new(v.as_slice())
    }

    /// Runs the search and returns all matches at once.  The store's
    /// shared cursor is reset to this query's scope and stands exhausted
    /// afterwards; each kept node's contents are refreshed in the store.
    pub fn to_vec(self, stack: &mut Stack) -> (r: Vec<Token>)
        requires
            old(stack)@.wf(),
        ensures
            final(stack)@.wf(),
            cursor_ok(final(stack)@),
            final(stack)@.tokens == search_fold(
                old(stack)@.code,
                old(stack)@.tokens,
                preorder_from(old(stack)@.tree(), self@.parent_id, self@.excludes),
                self@,
            ).0,
            final(stack)@.children == old(stack)@.children,
            final(stack)@.code == old(stack)@.code,
            final(stack)@.parent_id == old(stack)@.parent_id,
            final(stack)@.parent_position == self@.parent_id,
            final(stack)@.excludes == self@.excludes,
            remaining(final(stack)@).len() == 0,
            tokens_view(r@) == search_fold(
                old(stack)@.code,
                old(stack)@.tokens,
                preorder_from(old(stack)@.tree(), self@.parent_id, self@.excludes),
                self@,
            ).1,
    {
        self.search(stack)
    }
}

impl Stack {
    /// A fresh query over this store.
    pub fn query(&mut self) -> (r: Query)
        ensures
            *final(self) == *old(self),
            r@ == empty_crit(0),
    {
        Query::new()
    }

    /// A query scoped to the children and descendants of one node.
    pub fn get_children(&mut self, token_id: &usize) -> (r: Query)
        ensures
            *final(self) == *old(self),
            r@ == (CritView { parent_id: *token_id, ..empty_crit(0) }),
    {
        Query::new().parent_id(token_id)
    }

    /// Hands out every node of the document in pre-order.  The shared
    /// cursor is reset to the whole document and stands exhausted
    /// afterwards; every node's contents are refreshed in the store.
    pub fn iter(&mut self) -> (r: TokenIter)
        requires
            old(self)@.wf(),
        ensures
            final(self)@.wf(),
            cursor_ok(final(self)@),
            final(self)@.tokens == search_fold(
                old(self)@.code,
                old(self)@.tokens,
                preorder_from(old(self)@.tree(), 0, Seq::empty()),
                empty_crit(0),
            ).0,
            final(self)@.children == old(self)@.children,
            final(self)@.code == old(self)@.code,
            final(self)@.parent_id == old(self)@.parent_id,
            final(self)@.parent_position == 0,
            final(self)@.excludes == Seq::<usize>::empty(),
            remaining(final(self)@).len() == 0,
            r@.position == 0,
            r@.tokens == search_fold(
                old(self)@.code,
                old(self)@.tokens,
                preorder_from(old(self)@.tree(), 0, Seq::empty()),
                empty_crit(0),
            ).1,
    {
        Query::new().iter(self)
    }
}

impl Token {
    /// A query scoped to this node's children and descendants.
    pub fn children(&self) -> (r: Query)
        ensures
            r@ == (CritView { parent_id: self@.id, ..empty_crit(0) }),
    {
        let id = self.id();
        Query::new().parent_id(&id)
    }
}

} // verus!
