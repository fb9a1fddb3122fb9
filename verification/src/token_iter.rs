//! A finite, forward-only iteration over nodes already pulled from the
//! store.
use crate::token::{tokens_view, Token, TokenView};
use vstd::prelude::*;

verus! {

/// The mathematical value of an iteration: the nodes and how many have
/// been handed out.
#[verifier::ext_equal]
pub ghost struct TokenIterView {
    /// The nodes, in the order they are handed out.
    pub tokens: Seq<TokenView>,
    /// How many have been handed out already.
    pub position: usize,
}

/// A finite, forward-only iteration over nodes.
pub struct TokenIter {
    tokens: Vec<Token>,
    position: usize,
}

impl View for TokenIter {
    type V = TokenIterView;

    closed spec fn view(&self) -> TokenIterView {
        TokenIterView { tokens: tokens_view(self.tokens@), position: self.position }
    }
}

impl TokenIter {
    /// An iteration over copies of the given nodes, from the first.
    pub fn new(tokens: &[Token]) -> (r: Self)
        ensures
            r@.tokens == tokens_view(tokens@),
            r@.position == 0,
    {
        let mut copy: Vec<Token> = Vec::new();
        let mut i: usize = 0;
        while i < tokens.len()
            invariant
                i <= tokens@.len(),
                tokens_view(copy@) == tokens_view(tokens@).take(i as int),
            decreases tokens@.len() - i,
        {
            let t = vstd::slice::slice_index_get(tokens, i).clone();
            let ghost pre = copy@;
            copy.push(t);
            i = i + 1;
            proof {
                let x = copy@.last();
                assert(copy@ =~= pre.push(x));
                crate::token::lemma_tokens_view_push(pre, x);
                assert(tokens_view(tokens@).take(i as int) =~= tokens_view(tokens@).take(
                    i - 1,
                ).push(tokens_view(tokens@)[i - 1]));
                assert(tokens_view(copy@) =~= tokens_view(tokens@).take(i as int));
            }
        }
        proof {
            assert(tokens_view(tokens@).take(tokens@.len() as int) =~= tokens_view(tokens@));
        }
        TokenIter { tokens: copy, position: 0 }
    }

    /// The next node of the iteration, or nothing once all have been
    /// handed out.
    pub fn next(&mut self) -> (r: Option<Token>)
        ensures
            match r {
                Some(t) => old(self)@.position < old(self)@.tokens.len() && t@ == old(
                    self,
                )@.tokens[old(self)@.position as int] && final(self)@ == (TokenIterView {
                    position: (old(self)@.position + 1) as usize,
                    ..old(self)@
                }),
                None => old(self)@.position >= old(self)@.tokens.len() && final(self)@ == old(
                    self,
                )@,
            },
    {
        if self.position >= self.tokens.len() {
            return None;
        }
        let t = self.tokens[self.position].clone();
        self.position = self.position + 1;
        Some(t)
    }
}

} // verus!
