//! The laws of the traversal and of node editing: what a full or scoped
//! pre-order walk visits, what excluding a subtree removes, and what an
//! idempotent attribute edit leaves unchanged.
use crate::attr::attrs_put;
use crate::stack::{forest_ex, in_scope, preorder_from, TreeView};
use crate::token::{attrs_lookup, TokenView};
use vstd::prelude::*;

verus! {

/// Every root of the list is a real child of `p`.
pub open spec fn list_ok(t: TreeView, l: Seq<usize>, p: usize) -> bool {
    forall|w: int|
        0 <= w < l.len() ==> p < (#[trigger] l[w]) && (l[w] as int) < t.tokens.len()
            && t.tokens[l[w] as int] is Some && t.tokens[l[w] as int].unwrap().parent_id == p
}

/// Membership splits over concatenation.
proof fn lemma_contains_cat<A>(a: Seq<A>, b: Seq<A>, x: A)
    ensures
        (a + b).contains(x) <==> a.contains(x) || b.contains(x),
{
    if (a + b).contains(x) {
        let w = choose|w: int| 0 <= w < (a + b).len() && (a + b)[w] == x;
        if w < a.len() {
            assert(a[w] == x);
        } else {
            assert(b[w - a.len()] == x);
        }
    }
    if a.contains(x) {
        let w = choose|w: int| 0 <= w < a.len() && a[w] == x;
        assert((a + b)[w] == x);
    }
    if b.contains(x) {
        let w = choose|w: int| 0 <= w < b.len() && b[w] == x;
        assert((a + b)[a.len() + w] == x);
    }
}

/// Two lists without shared elements concatenate without duplicates.
proof fn lemma_cat_nodup<A>(a: Seq<A>, b: Seq<A>)
    requires
        a.no_duplicates(),
        b.no_duplicates(),
        forall|x: A| !(#[trigger] a.contains(x) && b.contains(x)),
    ensures
        (a + b).no_duplicates(),
{
    assert forall|i: int, j: int|
        0 <= i < j < (a + b).len() implies (a + b)[i] != (a + b)[j] by {
        if i < a.len() && j < a.len() {
        } else if i >= a.len() && j >= a.len() {
            assert((a + b)[i] == b[i - a.len()]);
            assert((a + b)[j] == b[j - a.len()]);
        } else {
            assert((a + b)[i] == a[i]);
            assert((a + b)[j] == b[j - a.len()]);
            if a[i] == b[j - a.len()] {
                assert(a.contains(a[i]));
                assert(b.contains(a[i]));
            }
        }
    }
}

/// The child lists of a sound tree are sound root lists.
pub proof fn lemma_kids_ok(t: TreeView, p: usize)
    requires
        t.wf(),
    ensures
        list_ok(t, t.kids(p), p),
        t.kids(p).no_duplicates(),
{
    if p < t.children.len() {
        assert forall|w: int|
            0 <= w < t.kids(p).len() implies p < (#[trigger] t.kids(p)[w]) && (t.kids(p)[w] as int)
            < t.tokens.len() && t.tokens[t.kids(p)[w] as int] is Some && t.tokens[t.kids(
            p,
        )[w] as int].unwrap().parent_id == p by {
            assert(t.kid_ok(p as int, w));
        }
        assert forall|i: int, j: int|
            0 <= i < j < t.kids(p).len() implies t.kids(p)[i] != t.kids(p)[j] by {
            assert(t.children[p as int][i] < t.children[p as int][j]);
        }
    }
}

/// A node inside a scope reaches it through ever-smaller parents.
pub proof fn lemma_in_scope_trans(t: TreeView, z: usize, c: usize, p: usize)
    requires
        in_scope(t, z, c),
        in_scope(t, c, p),
    ensures
        in_scope(t, z, p),
    decreases z,
{
    if z == c {
    } else {
        let q = t.tok(z).unwrap().parent_id;
        lemma_in_scope_trans(t, q, c, p);
    }
}

/// The scope root never exceeds a node inside its subtree.
pub proof fn lemma_scope_le(t: TreeView, x: usize, scope: usize)
    requires
        in_scope(t, x, scope),
    ensures
        scope <= x,
    decreases x,
{
    if x == scope {
    } else {
        let q = t.tok(x).unwrap().parent_id;
        lemma_scope_le(t, q, scope);
    }
}

/// Every node of a sound tree sits inside the whole document.
pub proof fn lemma_chain_to_zero(t: TreeView, x: usize)
    requires
        t.wf(),
        t.tok(x) is Some,
    ensures
        in_scope(t, x, 0),
    decreases x,
{
    assert(t.tok_ok(x as int));
    assert(x != 0);
    let q = t.tok(x).unwrap().parent_id;
    if q == 0 {
        assert(in_scope(t, q, 0));
    } else {
        lemma_chain_to_zero(t, q);
    }
}

/// Two ancestors of one node are themselves in line.
proof fn lemma_scope_linear(t: TreeView, z: usize, a: usize, b: usize)
    requires
        in_scope(t, z, a),
        in_scope(t, z, b),
    ensures
        in_scope(t, a, b) || in_scope(t, b, a),
    decreases z,
{
    if z == a || z == b {
    } else {
        let q = t.tok(z).unwrap().parent_id;
        lemma_scope_linear(t, q, a, b);
    }
}

/// Distinct children of one parent root disjoint subtrees.
proof fn lemma_sibling_disjoint(t: TreeView, p: usize, c: usize, c2: usize, z: usize)
    requires
        t.wf(),
        p < c && t.tok(c) is Some && t.tok(c).unwrap().parent_id == p,
        p < c2 && t.tok(c2) is Some && t.tok(c2).unwrap().parent_id == p,
        c != c2,
    ensures
        !(in_scope(t, z, c) && in_scope(t, z, c2)),
{
    if in_scope(t, z, c) && in_scope(t, z, c2) {
        lemma_scope_linear(t, z, c, c2);
        if in_scope(t, c, c2) {
            assert(in_scope(t, p, c2));
            lemma_scope_le(t, p, c2);
        } else {
            assert(in_scope(t, p, c));
            lemma_scope_le(t, p, c);
        }
    }
}

/// Whoever a forest walk visits is a real node strictly below the scope,
/// inside the subtree of one of the roots.
pub proof fn lemma_forest_elems(t: TreeView, l: Seq<usize>, p: usize, e: Seq<usize>)
    requires
        t.wf(),
        list_ok(t, l, p),
    ensures
        forall|z: usize|
            #[trigger] forest_ex(t, l, p, e).contains(z) ==> t.tok(z) is Some && in_scope(t, z, p)
                && z != p && exists|w: int| 0 <= w < l.len() && in_scope(t, z, #[trigger] l[w]),
    decreases t.tokens.len() - p, l.len(),
{
    if l.len() == 0 {
    } else {
        let c = l[0];
        let rest = forest_ex(t, l.drop_first(), p, e);
        assert(list_ok(t, l.drop_first(), p)) by {
            assert forall|w: int|
                0 <= w < l.drop_first().len() implies p < (#[trigger] l.drop_first()[w]) && (
            l.drop_first()[w] as int) < t.tokens.len() && t.tokens[l.drop_first()[w] as int] is Some
                && t.tokens[l.drop_first()[w] as int].unwrap().parent_id == p by {
                assert(l.drop_first()[w] == l[w + 1]);
            }
        }
        lemma_forest_elems(t, l.drop_first(), p, e);
        assert forall|z: usize|
            #[trigger] forest_ex(t, l, p, e).contains(z) implies t.tok(z) is Some && in_scope(
            t,
            z,
            p,
        ) && z != p && exists|w: int| 0 <= w < l.len() && in_scope(t, z, #[trigger] l[w]) by {
            if e.contains(c) {
                assert(rest.contains(z));
                let w = choose|w: int|
                    0 <= w < l.drop_first().len() && in_scope(t, z, l.drop_first()[w]);
                assert(l[w + 1] == l.drop_first()[w]);
                assert(in_scope(t, z, l[w + 1]));
            } else if p < c && (c as int) < t.tokens.len() {
                let sub = forest_ex(t, t.kids(c), c, e);
                lemma_contains_cat(seq![c] + sub, rest, z);
                lemma_contains_cat(seq![c], sub, z);
                if (seq![c]).contains(z) {
                    assert(z == c);
                    assert(p < l[0] && t.tokens[l[0] as int].unwrap().parent_id == p);
                    assert(in_scope(t, p, p));
                    assert(in_scope(t, c, p));
                    assert(in_scope(t, z, l[0]));
                } else if sub.contains(z) {
                    lemma_kids_ok(t, c);
                    lemma_forest_elems(t, t.kids(c), c, e);
                    assert(in_scope(t, z, c));
                    assert(p < l[0] && t.tokens[l[0] as int].unwrap().parent_id == p);
                    assert(in_scope(t, p, p));
                    assert(in_scope(t, c, p));
                    lemma_in_scope_trans(t, z, c, p);
                    lemma_scope_le(t, z, c);
                    assert(in_scope(t, z, l[0]));
                } else {
                    assert(rest.contains(z));
                    let w = choose|w: int|
                        0 <= w < l.drop_first().len() && in_scope(t, z, l.drop_first()[w]);
                    assert(l[w + 1] == l.drop_first()[w]);
                    assert(in_scope(t, z, l[w + 1]));
                }
            } else {
                lemma_contains_cat(seq![c], rest, z);
                if (seq![c]).contains(z) {
                    assert(false);
                } else {
                    let w = choose|w: int|
                        0 <= w < l.drop_first().len() && in_scope(t, z, l.drop_first()[w]);
                    assert(l[w + 1] == l.drop_first()[w]);
                    assert(in_scope(t, z, l[w + 1]));
                }
            }
        }
    }
}

/// A proper descendant of a scope enters it through one child.
proof fn lemma_scope_entry(t: TreeView, x: usize, c: usize)
    requires
        t.wf(),
        in_scope(t, x, c),
        x != c,
        t.tok(x) is Some,
    ensures
        exists|a: usize|
            #[trigger] t.kids(c).contains(a) && in_scope(t, x, a) && t.tok(a) is Some,
    decreases x,
{
    assert(t.tok_ok(x as int));
    let q = t.tok(x).unwrap().parent_id;
    if q == c {
        assert(t.kids(c).contains(x));
        assert(in_scope(t, x, x));
    } else {
        assert(in_scope(t, q, c));
        assert(q != c);
        if q == 0 {
            assert(!in_scope(t, q, c));
        }
        assert(t.tok(q) is Some);
        lemma_scope_entry(t, q, c);
        let a = choose|a: usize|
            #[trigger] t.kids(c).contains(a) && in_scope(t, q, a) && t.tok(a) is Some;
        lemma_kids_ok(t, c);
        let w = choose|w: int| 0 <= w < t.kids(c).len() && t.kids(c)[w] == a;
        assert(c < a);
        lemma_scope_le(t, q, a);
        assert(a <= q < x);
        assert(in_scope(t, x, a));
    }
}

/// Whoever sits under one of the roots is visited by the unexcluded
/// forest walk.
pub proof fn lemma_forest_contains(t: TreeView, l: Seq<usize>, p: usize, x: usize, w: int)
    requires
        t.wf(),
        list_ok(t, l, p),
        0 <= w < l.len(),
        in_scope(t, x, l[w]),
        t.tok(x) is Some,
    ensures
        forest_ex(t, l, p, Seq::empty()).contains(x),
    decreases t.tokens.len() - p, l.len(),
{
    let c = l[0];
    let sub = forest_ex(t, t.kids(c), c, Seq::empty());
    let rest = forest_ex(t, l.drop_first(), p, Seq::<usize>::empty());
    assert(list_ok(t, l.drop_first(), p)) by {
        assert forall|u: int|
            0 <= u < l.drop_first().len() implies p < (#[trigger] l.drop_first()[u]) && (
        l.drop_first()[u] as int) < t.tokens.len() && t.tokens[l.drop_first()[u] as int] is Some
            && t.tokens[l.drop_first()[u] as int].unwrap().parent_id == p by {
            assert(l.drop_first()[u] == l[u + 1]);
        }
    }
    if w == 0 {
        assert(p < c && (c as int) < t.tokens.len());
        if x == c {
            assert((seq![c] + sub + rest)[0] == c);
            assert(forest_ex(t, l, p, Seq::empty()).contains(x));
        } else {
            lemma_scope_entry(t, x, c);
            let a = choose|a: usize|
                #[trigger] t.kids(c).contains(a) && in_scope(t, x, a) && t.tok(a) is Some;
            let wa = choose|wa: int| 0 <= wa < t.kids(c).len() && t.kids(c)[wa] == a;
            lemma_kids_ok(t, c);
            lemma_forest_contains(t, t.kids(c), c, x, wa);
            lemma_contains_cat(seq![c] + sub, rest, x);
            lemma_contains_cat(seq![c], sub, x);
        }
    } else {
        assert(l.drop_first()[w - 1] == l[w]);
        lemma_forest_contains(t, l.drop_first(), p, x, w - 1);
        if !(p < c && (c as int) < t.tokens.len()) {
            lemma_contains_cat(seq![c], rest, x);
        } else {
            lemma_contains_cat(seq![c] + sub, rest, x);
        }
    }
}

/// No forest walk without exclusions visits a node twice.
pub proof fn lemma_forest_nodup(t: TreeView, l: Seq<usize>, p: usize, e: Seq<usize>)
    requires
        t.wf(),
        list_ok(t, l, p),
        l.no_duplicates(),
    ensures
        forest_ex(t, l, p, e).no_duplicates(),
    decreases t.tokens.len() - p, l.len(),
{
    if l.len() == 0 {
    } else {
        let c = l[0];
        let rest = forest_ex(t, l.drop_first(), p, e);
        assert(list_ok(t, l.drop_first(), p) && l.drop_first().no_duplicates()) by {
            assert forall|u: int|
                0 <= u < l.drop_first().len() implies p < (#[trigger] l.drop_first()[u]) && (
            l.drop_first()[u] as int) < t.tokens.len() && t.tokens[l.drop_first()[u] as int] is Some
                && t.tokens[l.drop_first()[u] as int].unwrap().parent_id == p by {
                assert(l.drop_first()[u] == l[u + 1]);
            }
            assert forall|i: int, j: int|
                0 <= i < j < l.drop_first().len() implies l.drop_first()[i] != l.drop_first()[j]
                by {
                assert(l.drop_first()[i] == l[i + 1] && l.drop_first()[j] == l[j + 1]);
            }
        }
        lemma_forest_nodup(t, l.drop_first(), p, e);
        lemma_forest_elems(t, l.drop_first(), p, e);
        if e.contains(c) {
        } else if p < c && (c as int) < t.tokens.len() {
            let sub = forest_ex(t, t.kids(c), c, e);
            lemma_kids_ok(t, c);
            lemma_forest_nodup(t, t.kids(c), c, e);
            lemma_forest_elems(t, t.kids(c), c, e);
            assert((seq![c]).no_duplicates());
            assert forall|x: usize| !(#[trigger] (seq![c]).contains(x) && sub.contains(x)) by {
                if (seq![c]).contains(x) && sub.contains(x) {
                    assert(x == c);
                    lemma_scope_le(t, x, c);
                }
            }
            lemma_cat_nodup(seq![c], sub);
            assert forall|x: usize|
                !(#[trigger] (seq![c] + sub).contains(x) && rest.contains(x)) by {
                if (seq![c] + sub).contains(x) && rest.contains(x) {
                    lemma_contains_cat(seq![c], sub, x);
                    let w = choose|w: int|
                        0 <= w < l.drop_first().len() && in_scope(t, x, l.drop_first()[w]);
                    let c2 = l.drop_first()[w];
                    assert(c2 == l[w + 1]);
                    assert(c2 != c);
                    if x == c {
                        lemma_sibling_disjoint(t, p, c, c2, c);
                    } else {
                        assert(sub.contains(x));
                        assert(in_scope(t, x, c));
                        lemma_sibling_disjoint(t, p, c, c2, x);
                    }
                }
            }
            lemma_cat_nodup(seq![c] + sub, rest);
        } else {
            assert forall|x: usize| !(#[trigger] (seq![c]).contains(x) && rest.contains(x)) by {
                if (seq![c]).contains(x) && rest.contains(x) {
                    let w = choose|w: int|
                        0 <= w < l.drop_first().len() && in_scope(t, x, l.drop_first()[w]);
                    let c2 = l.drop_first()[w];
                    assert(c2 == l[w + 1]);
                    lemma_scope_le(t, x, c2);
                }
            }
            assert((seq![c]).no_duplicates());
            lemma_cat_nodup(seq![c], rest);
        }
    }
}

/// Traversal completeness: a full unscoped walk of a sound tree visits
/// exactly the stored nodes, each exactly once.
pub proof fn lemma_traversal_complete(t: TreeView)
    requires
        t.wf(),
    ensures
        forall|x: usize|
            #[trigger] preorder_from(t, 0, Seq::empty()).contains(x) <==> t.tok(x) is Some,
        preorder_from(t, 0, Seq::empty()).no_duplicates(),
{
    lemma_scoped_traversal(t, 0);
    assert forall|x: usize|
        #[trigger] preorder_from(t, 0, Seq::empty()).contains(x) <==> t.tok(x) is Some by {
        if t.tok(x) is Some {
            lemma_chain_to_zero(t, x);
            assert(x != 0);
        }
        if preorder_from(t, 0, Seq::empty()).contains(x) {
        }
    }
}

/// Scoping: a walk scoped to `scope` visits exactly the proper
/// descendants of `scope`, each exactly once.
pub proof fn lemma_scoped_traversal(t: TreeView, scope: usize)
    requires
        t.wf(),
    ensures
        forall|x: usize|
            #[trigger] preorder_from(t, scope, Seq::empty()).contains(x) <==> (t.tok(x) is Some
                && x != scope && in_scope(t, x, scope)),
        preorder_from(t, scope, Seq::empty()).no_duplicates(),
{
    lemma_kids_ok(t, scope);
    lemma_forest_elems(t, t.kids(scope), scope, Seq::empty());
    lemma_forest_nodup(t, t.kids(scope), scope, Seq::empty());
    assert forall|x: usize|
        #[trigger] preorder_from(t, scope, Seq::empty()).contains(x) <==> (t.tok(x) is Some && x
            != scope && in_scope(t, x, scope)) by {
        if t.tok(x) is Some && x != scope && in_scope(t, x, scope) {
            lemma_scope_entry(t, x, scope);
            let a = choose|a: usize|
                #[trigger] t.kids(scope).contains(a) && in_scope(t, x, a) && t.tok(a) is Some;
            let w = choose|w: int| 0 <= w < t.kids(scope).len() && t.kids(scope)[w] == a;
            lemma_forest_contains(t, t.kids(scope), scope, x, w);
        }
    }
}

/// Idempotent attribute edit: writing a value an attribute already holds
/// changes nothing about the mapping.
pub proof fn lemma_attrs_put_idempotent(
    attrs: Seq<(Seq<char>, Seq<char>)>,
    k: Seq<char>,
    v: Seq<char>,
)
    requires
        attrs_lookup(attrs, k) == Some(v),
    ensures
        attrs_put(attrs, k, v) == attrs,
    decreases attrs.len(),
{
    if attrs.len() == 0 {
    } else if attrs[0].0 == k {
        assert(attrs[0] == (k, v));
        assert(seq![(k, v)] + attrs.drop_first() =~= attrs);
    } else {
        lemma_attrs_put_idempotent(attrs.drop_first(), k, v);
        assert(seq![attrs[0]] + attrs.drop_first() =~= attrs);
    }
}

/// Idempotent attribute edit, at the node: setting an attribute to its
/// current value leaves the node, and so any later rendering of the
/// document, unchanged.
pub proof fn lemma_set_attr_idempotent(t: TokenView, k: Seq<char>, v: Seq<char>)
    requires
        attrs_lookup(t.attrs, k) == Some(v),
    ensures
        (TokenView { attrs: attrs_put(t.attrs, k, v), ..t }) == t,
{
    lemma_attrs_put_idempotent(t.attrs, k, v);
    assert((TokenView { attrs: attrs_put(t.attrs, k, v), ..t }) =~= t);
}


/// Whether an excluded node stands on the way from the scope down to
/// `x`, the node `x` itself included.
pub open spec fn hidden_below(t: TreeView, x: usize, p: usize, e: Seq<usize>) -> bool {
    exists|h: usize|
        e.contains(h) && h != p && #[trigger] in_scope(t, h, p) && in_scope(t, x, h)
}

/// Filtering cares only about how the predicates act on the elements.
proof fn lemma_filter_agree<A>(s: Seq<A>, p1: spec_fn(A) -> bool, p2: spec_fn(A) -> bool)
    requires
        forall|x: A| #[trigger] s.contains(x) ==> (p1(x) <==> p2(x)),
    ensures
        s.filter(p1) == s.filter(p2),
    decreases s.len(),
{
    reveal(Seq::filter);
    if s.len() > 0 {
        assert(s.contains(s.last()));
        assert forall|x: A| #[trigger] s.drop_last().contains(x) implies (p1(x) <==> p2(x)) by {
            let w = choose|w: int| 0 <= w < s.drop_last().len() && s.drop_last()[w] == x;
            assert(s[w] == x);
            assert(s.contains(x));
        }
        lemma_filter_agree(s.drop_last(), p1, p2);
    }
}

/// A one-element list filters to itself or to nothing.
proof fn lemma_filter_singleton<A>(x: A, pred: spec_fn(A) -> bool)
    ensures
        pred(x) ==> seq![x].filter(pred) == seq![x],
        !pred(x) ==> seq![x].filter(pred) == Seq::<A>::empty(),
{
    reveal(Seq::filter);
    assert(seq![x].drop_last() =~= Seq::<A>::empty());
    assert(Seq::<A>::empty().filter(pred) =~= Seq::<A>::empty());
    assert(seq![x].drop_last().filter(pred) =~= Seq::<A>::empty());
    if pred(x) {
        assert(Seq::<A>::empty().push(x) =~= seq![x]);
    }
}

/// Exclusion, along a forest: the walk under an exclusion set equals the
/// unexcluded walk with every node below an excluded one filtered out —
/// so the surviving nodes keep their relative order.
proof fn lemma_forest_filter(t: TreeView, l: Seq<usize>, p: usize, e: Seq<usize>)
    requires
        t.wf(),
        list_ok(t, l, p),
    ensures
        forest_ex(t, l, p, e) == forest_ex(t, l, p, Seq::empty()).filter(
            |x: usize| !hidden_below(t, x, p, e),
        ),
    decreases t.tokens.len() - p, l.len(),
{
    let pred_p = |x: usize| !hidden_below(t, x, p, e);
    if l.len() == 0 {
        reveal(Seq::filter);
        assert(forest_ex(t, l, p, Seq::empty()).filter(pred_p) =~= Seq::<usize>::empty());
    } else {
        let c = l[0];
        assert(p < l[0] && (l[0] as int) < t.tokens.len() && t.tokens[l[0] as int] is Some
            && t.tokens[l[0] as int].unwrap().parent_id == p);
        assert(list_ok(t, l.drop_first(), p)) by {
            assert forall|u: int|
                0 <= u < l.drop_first().len() implies p < (#[trigger] l.drop_first()[u]) && (
            l.drop_first()[u] as int) < t.tokens.len() && t.tokens[l.drop_first()[u] as int] is Some
                && t.tokens[l.drop_first()[u] as int].unwrap().parent_id == p by {
                assert(l.drop_first()[u] == l[u + 1]);
            }
        }
        lemma_forest_filter(t, l.drop_first(), p, e);
        let rest0 = forest_ex(t, l.drop_first(), p, Seq::<usize>::empty());
        let sub0 = forest_ex(t, t.kids(c), c, Seq::<usize>::empty());
        lemma_kids_ok(t, c);
        lemma_forest_elems(t, t.kids(c), c, Seq::empty());
        assert(in_scope(t, p, p));
        assert(in_scope(t, c, p));
        Seq::filter_distributes_over_add(seq![c] + sub0, rest0, pred_p);
        Seq::filter_distributes_over_add(seq![c], sub0, pred_p);
        if e.contains(c) {
            // The head and its whole subtree are hidden.
            assert(hidden_below(t, c, p, e)) by {
                assert(e.contains(c) && c != p && in_scope(t, c, p) && in_scope(t, c, c));
            }
            lemma_filter_singleton(c, pred_p);
            assert forall|i: int| 0 <= i < sub0.len() implies !pred_p(sub0[i]) by {
                assert(sub0.contains(sub0[i]));
                let z = sub0[i];
                assert(in_scope(t, z, c));
                assert(e.contains(c) && c != p && in_scope(t, c, p) && in_scope(t, z, c));
                assert(hidden_below(t, z, p, e));
            }
            sub0.lemma_all_neg_filter_empty(pred_p);
            assert(forest_ex(t, l, p, e) =~= (seq![c] + sub0 + rest0).filter(pred_p));
        } else {
            // The head stays; below it, hiding relative to the head and
            // hiding relative to the scope agree.
            let pred_c = |x: usize| !hidden_below(t, x, c, e);
            assert(pred_p(c)) by {
                if hidden_below(t, c, p, e) {
                    let h = choose|h: usize|
                        e.contains(h) && h != p && #[trigger] in_scope(t, h, p) && in_scope(
                            t,
                            c,
                            h,
                        );
                    assert(h != c);
                    assert(in_scope(t, p, h));
                    lemma_scope_le(t, p, h);
                    lemma_scope_le(t, h, p);
                }
            }
            lemma_filter_singleton(c, pred_p);
            lemma_forest_filter(t, t.kids(c), c, e);
            assert forall|z: usize| #[trigger] sub0.contains(z) implies (pred_p(z) <==> pred_c(
                z,
            )) by {
                assert(in_scope(t, z, c));
                if hidden_below(t, z, c, e) {
                    let h = choose|h: usize|
                        e.contains(h) && h != c && #[trigger] in_scope(t, h, c) && in_scope(
                            t,
                            z,
                            h,
                        );
                    lemma_in_scope_trans(t, h, c, p);
                    lemma_scope_le(t, h, c);
                    assert(h != p);
                    assert(hidden_below(t, z, p, e));
                }
                if hidden_below(t, z, p, e) {
                    let h = choose|h: usize|
                        e.contains(h) && h != p && #[trigger] in_scope(t, h, p) && in_scope(
                            t,
                            z,
                            h,
                        );
                    assert(h != c);
                    lemma_scope_linear(t, z, h, c);
                    if in_scope(t, c, h) {
                        assert(in_scope(t, p, h));
                        lemma_scope_le(t, p, h);
                        lemma_scope_le(t, h, p);
                    }
                    assert(in_scope(t, h, c));
                    assert(hidden_below(t, z, c, e));
                }
            }
            lemma_filter_agree(sub0, pred_p, pred_c);
            assert(forest_ex(t, l, p, e) =~= (seq![c] + sub0 + rest0).filter(pred_p));
        }
    }
}

/// Exclusion: a traversal under an exclusion set visits exactly the
/// unexcluded traversal with every excluded subtree filtered out, the
/// surviving nodes in their old relative order.
pub proof fn lemma_exclusion(t: TreeView, scope: usize, e: Seq<usize>)
    requires
        t.wf(),
    ensures
        preorder_from(t, scope, e) == preorder_from(t, scope, Seq::empty()).filter(
            |x: usize| !hidden_below(t, x, scope, e),
        ),
{
    lemma_kids_ok(t, scope);
    lemma_forest_filter(t, t.kids(scope), scope, e);
}


/// An ancestor stands before each of its descendants in the walk.
pub open spec fn ancestors_first(t: TreeView, f: Seq<usize>) -> bool {
    forall|i: int, j: int|
        0 <= i < f.len() && 0 <= j < f.len() && f[i] != f[j] && in_scope(
            t,
            #[trigger] f[j],
            #[trigger] f[i],
        ) ==> i < j
}

/// Nodes sharing a parent stand in increasing id order in the walk:
/// their document order.
pub open spec fn siblings_in_order(t: TreeView, f: Seq<usize>) -> bool {
    forall|i: int, j: int|
        0 <= i < f.len() && 0 <= j < f.len() && t.tok(#[trigger] f[i]) is Some && t.tok(
            #[trigger] f[j],
        ) is Some && t.tok(f[i]).unwrap().parent_id == t.tok(f[j]).unwrap().parent_id && f[i] < f[j]
            ==> i < j
}

/// Order, along a forest: an ancestor is visited before each of its
/// descendants, and nodes sharing a parent are visited in increasing id
/// order, which is their document order.
proof fn lemma_forest_order(t: TreeView, l: Seq<usize>, p: usize)
    requires
        t.wf(),
        list_ok(t, l, p),
        forall|a: int, b: int| 0 <= a < b < l.len() ==> l[a] < l[b],
    ensures
        ancestors_first(t, forest_ex(t, l, p, Seq::<usize>::empty())),
        siblings_in_order(t, forest_ex(t, l, p, Seq::<usize>::empty())),
    decreases t.tokens.len() - p, l.len(),
{
    let e0 = Seq::<usize>::empty();
    let f = forest_ex(t, l, p, e0);
    if l.len() == 0 {
    } else {
        let c = l[0];
        assert(p < l[0] && (l[0] as int) < t.tokens.len() && t.tokens[l[0] as int] is Some
            && t.tokens[l[0] as int].unwrap().parent_id == p);
        let sub = forest_ex(t, t.kids(c), c, e0);
        let rest = forest_ex(t, l.drop_first(), p, e0);
        assert(list_ok(t, l.drop_first(), p) && (forall|a: int, b: int|
            0 <= a < b < l.drop_first().len() ==> l.drop_first()[a] < l.drop_first()[b])) by {
            assert forall|u: int|
                0 <= u < l.drop_first().len() implies p < (#[trigger] l.drop_first()[u]) && (
            l.drop_first()[u] as int) < t.tokens.len() && t.tokens[l.drop_first()[u] as int] is Some
                && t.tokens[l.drop_first()[u] as int].unwrap().parent_id == p by {
                assert(l.drop_first()[u] == l[u + 1]);
            }
            assert forall|a: int, b: int|
                0 <= a < b < l.drop_first().len() implies l.drop_first()[a] < l.drop_first()[b]
                by {
                assert(l.drop_first()[a] == l[a + 1] && l.drop_first()[b] == l[b + 1]);
            }
        }
        lemma_kids_ok(t, c);
        lemma_forest_order(t, t.kids(c), c);
        lemma_forest_order(t, l.drop_first(), p);
        lemma_forest_elems(t, t.kids(c), c, e0);
        lemma_forest_elems(t, l.drop_first(), p, e0);
        assert(in_scope(t, p, p));
        assert(in_scope(t, c, p));
        assert(f =~= seq![c] + sub + rest);
        assert(f.len() == 1 + sub.len() + rest.len());

        // Where each region's nodes live.
        assert forall|i: int| 1 <= i < 1 + sub.len() implies #[trigger] f[i] == sub[i - 1]
            && sub.contains(sub[i - 1]) by {}
        assert forall|i: int|
            1 + sub.len() <= i < f.len() implies #[trigger] f[i] == rest[i - 1 - sub.len()]
            && rest.contains(rest[i - 1 - sub.len()]) by {}

        assert forall|i: int, j: int|
            0 <= i < f.len() && 0 <= j < f.len() && f[i] != f[j] && in_scope(
                t,
                #[trigger] f[j],
                #[trigger] f[i],
            ) implies i < j by {
            if i == 0 {
                assert(j != 0);
            } else if j == 0 {
                // c cannot descend from anything else in this forest
                if 1 <= i < 1 + sub.len() {
                    assert(in_scope(t, f[i], c));
                    lemma_scope_le(t, f[i], c);
                    lemma_scope_le(t, c, f[i]);
                } else {
                    let z = f[i];
                    let w = choose|w: int|
                        0 <= w < l.drop_first().len() && in_scope(t, z, l.drop_first()[w]);
                    let c2 = l.drop_first()[w];
                    assert(c2 == l[w + 1]);
                    lemma_in_scope_trans(t, c, z, c2);
                    lemma_sibling_disjoint(t, p, c, c2, c);
                }
            } else if 1 <= i < 1 + sub.len() && 1 <= j < 1 + sub.len() {
            } else if 1 + sub.len() <= i && 1 + sub.len() <= j {
            } else if 1 <= i < 1 + sub.len() && 1 + sub.len() <= j {
                assert(i < j);
            } else {
                // i in a later sibling's subtree, j under the head: the
                // descendant would sit in two sibling subtrees at once.
                let zi = f[i];
                let zj = f[j];
                let w = choose|w: int|
                    0 <= w < l.drop_first().len() && in_scope(t, zi, l.drop_first()[w]);
                let c2 = l.drop_first()[w];
                assert(c2 == l[w + 1]);
                lemma_in_scope_trans(t, zj, zi, c2);
                assert(in_scope(t, zj, c));
                lemma_sibling_disjoint(t, p, c, c2, zj);
            }
        }

        assert forall|i: int, j: int|
            0 <= i < f.len() && 0 <= j < f.len() && t.tok(#[trigger] f[i]) is Some && t.tok(
                #[trigger] f[j],
            ) is Some && t.tok(f[i]).unwrap().parent_id == t.tok(f[j]).unwrap().parent_id && f[i]
                < f[j] implies i < j by {
            let zi = f[i];
            let zj = f[j];
            let q = t.tok(zi).unwrap().parent_id;
            if i == j {
            } else if i == 0 || j == 0 {
                // the other node shares the head's parent, so it is a
                // later root, larger than the head
                if j == 0 {
                    assert(zj == c);
                    if 1 <= i < 1 + sub.len() {
                        assert(in_scope(t, zi, c));
                        assert(zi != c);
                        assert(t.tok_ok(zi as int));
                        assert(in_scope(t, q, c));
                        if q == c {
                            lemma_scope_le(t, zi, c);
                            assert(zi > c);
                            assert(!(zi < zj));
                        } else {
                            lemma_scope_le(t, q, c);
                            assert(q > c > p);
                            assert(!(q == p));
                        }
                    } else {
                        let w = choose|w: int|
                            0 <= w < l.drop_first().len() && in_scope(t, zi, l.drop_first()[w]);
                        let c2 = l.drop_first()[w];
                        assert(c2 == l[w + 1]);
                        if zi != c2 {
                            assert(in_scope(t, q, c2));
                            lemma_scope_le(t, q, c2);
                            assert(q >= c2 > p);
                        } else {
                            assert(zi == c2);
                            assert(l[0] < l[w + 1]);
                            assert(!(zi < zj));
                        }
                    }
                } else {
                    assert(zi == c);
                }
            } else if 1 <= i < 1 + sub.len() && 1 <= j < 1 + sub.len() {
            } else if 1 + sub.len() <= i && 1 + sub.len() <= j {
            } else if 1 <= i < 1 + sub.len() && 1 + sub.len() <= j {
                assert(i < j);
            } else {
                // siblings cannot straddle two sibling subtrees
                let w = choose|w: int|
                    0 <= w < l.drop_first().len() && in_scope(t, zi, l.drop_first()[w]);
                let c2 = l.drop_first()[w];
                assert(c2 == l[w + 1]);
                assert(in_scope(t, zj, c));
                if zi == c2 {
                    assert(q == p);
                    if zj == c {
                        assert(l[0] < l[w + 1]);
                        assert(!(zi < zj));
                    } else {
                        assert(zj != c);
                        assert(t.tok_ok(zj as int));
                        assert(in_scope(t, q, c));
                        lemma_scope_le(t, q, c);
                        assert(q >= c > p);
                    }
                } else {
                    assert(in_scope(t, q, c2));
                    if zj == c {
                        assert(q == t.tok(zj).unwrap().parent_id);
                        assert(q == p);
                        lemma_scope_le(t, q, c2);
                        assert(q >= c2 > p);
                    } else {
                        assert(in_scope(t, q, c));
                        lemma_sibling_disjoint(t, p, c, c2, q);
                    }
                }
            }
        }
    }
}

/// Traversal order: in the full pre-order walk every ancestor comes
/// before each of its descendants, and nodes sharing a parent come in
/// increasing id order, their document order.
pub proof fn lemma_traversal_order(t: TreeView)
    requires
        t.wf(),
    ensures
        ancestors_first(t, preorder_from(t, 0, Seq::<usize>::empty())),
        siblings_in_order(t, preorder_from(t, 0, Seq::<usize>::empty())),
{
    lemma_kids_ok(t, 0);
    lemma_forest_order(t, t.kids(0), 0);
}


/// Scoped order: the walk of any subtree orders its nodes the same way
/// the full walk does, ancestors first and siblings by document order.
pub proof fn lemma_scoped_order(t: TreeView, scope: usize)
    requires
        t.wf(),
    ensures
        ancestors_first(t, preorder_from(t, scope, Seq::<usize>::empty())),
        siblings_in_order(t, preorder_from(t, scope, Seq::<usize>::empty())),
{
    lemma_kids_ok(t, scope);
    lemma_forest_order(t, t.kids(scope), scope);
}


/// A list whose elements all pass filters to itself.
proof fn lemma_filter_all_true<A>(s: Seq<A>, pred: spec_fn(A) -> bool)
    requires
        forall|i: int| 0 <= i < s.len() ==> pred(#[trigger] s[i]),
    ensures
        s.filter(pred) == s,
    decreases s.len(),
{
    reveal(Seq::filter);
    if s.len() > 0 {
        assert(pred(s[s.len() - 1]));
        lemma_filter_all_true(s.drop_last(), pred);
        assert(s.drop_last().push(s.last()) =~= s);
    }
}

/// Scoping, along a forest: restricting a forest walk to the proper
/// descendants of `scope` leaves the scoped walk itself when `scope`
/// lies in the forest, everything when the forest already sits inside
/// `scope`, and nothing otherwise.
#[verifier::rlimit(100)]
proof fn lemma_forest_scope_filter(t: TreeView, l: Seq<usize>, p: usize, scope: usize)
    requires
        t.wf(),
        list_ok(t, l, p),
        l.no_duplicates(),
    ensures
        in_scope(t, p, scope) ==> forest_ex(t, l, p, Seq::<usize>::empty()).filter(
            |x: usize| x != scope && in_scope(t, x, scope),
        ) == forest_ex(t, l, p, Seq::<usize>::empty()),
        !in_scope(t, p, scope) ==> forest_ex(t, l, p, Seq::<usize>::empty()).filter(
            |x: usize| x != scope && in_scope(t, x, scope),
        ) == (if exists|w: int| 0 <= w < l.len() && in_scope(t, scope, #[trigger] l[w]) {
            preorder_from(t, scope, Seq::<usize>::empty())
        } else {
            Seq::<usize>::empty()
        }),
    decreases t.tokens.len() - p, l.len(),
{
    let e0 = Seq::<usize>::empty();
    let pred = |x: usize| x != scope && in_scope(t, x, scope);
    let f = forest_ex(t, l, p, e0);
    lemma_forest_elems(t, l, p, e0);
    if in_scope(t, p, scope) {
        assert forall|i: int| 0 <= i < f.len() implies pred(#[trigger] f[i]) by {
            assert(f.contains(f[i]));
            let z = f[i];
            assert(in_scope(t, z, p));
            lemma_in_scope_trans(t, z, p, scope);
            if z == scope {
                lemma_scope_le(t, p, z);
                lemma_scope_le(t, z, p);
            }
        }
        lemma_filter_all_true(f, pred);
    } else if l.len() == 0 {
        reveal(Seq::filter);
    } else {
        let c = l[0];
        assert(p < l[0] && (l[0] as int) < t.tokens.len() && t.tokens[l[0] as int] is Some
            && t.tokens[l[0] as int].unwrap().parent_id == p);
        let sub = forest_ex(t, t.kids(c), c, e0);
        let rest = forest_ex(t, l.drop_first(), p, e0);
        assert(list_ok(t, l.drop_first(), p) && l.drop_first().no_duplicates()) by {
            assert forall|u: int|
                0 <= u < l.drop_first().len() implies p < (#[trigger] l.drop_first()[u]) && (
            l.drop_first()[u] as int) < t.tokens.len() && t.tokens[l.drop_first()[u] as int] is Some
                && t.tokens[l.drop_first()[u] as int].unwrap().parent_id == p by {
                assert(l.drop_first()[u] == l[u + 1]);
            }
            assert forall|a: int, b: int|
                0 <= a < b < l.drop_first().len() implies l.drop_first()[a] != l.drop_first()[b]
                by {
                assert(l.drop_first()[a] == l[a + 1] && l.drop_first()[b] == l[b + 1]);
            }
        }
        lemma_kids_ok(t, c);
        lemma_forest_elems(t, t.kids(c), c, e0);
        lemma_forest_elems(t, l.drop_first(), p, e0);
        lemma_forest_scope_filter(t, l.drop_first(), p, scope);
        assert(in_scope(t, p, p));
        assert(in_scope(t, c, p));
        assert(f =~= seq![c] + sub + rest);
        Seq::filter_distributes_over_add(seq![c] + sub, rest, pred);
        Seq::filter_distributes_over_add(seq![c], sub, pred);
        // The head is never a proper descendant of the scope here.
        assert(!pred(c)) by {
            if c != scope && in_scope(t, c, scope) {
                assert(in_scope(t, p, scope));
            }
        }
        lemma_filter_singleton(c, pred);
        if in_scope(t, scope, c) {
            // The scope sits inside the head's subtree.
            assert forall|i: int| 0 <= i < rest.len() implies !pred(#[trigger] rest[i]) by {
                assert(rest.contains(rest[i]));
                let z = rest[i];
                if z != scope && in_scope(t, z, scope) {
                    let w = choose|w: int|
                        0 <= w < l.drop_first().len() && in_scope(t, z, l.drop_first()[w]);
                    let c2 = l.drop_first()[w];
                    assert(c2 == l[w + 1]);
                    assert(l[0] != l[w + 1]);
                    lemma_in_scope_trans(t, z, scope, c);
                    lemma_sibling_disjoint(t, p, c, c2, z);
                }
            }
            rest.lemma_all_neg_filter_empty(pred);
            if c == scope {
                lemma_forest_scope_filter(t, t.kids(c), c, scope);
                assert(sub.filter(pred) == sub);
            } else {
                assert(!in_scope(t, c, scope)) by {
                    if in_scope(t, c, scope) {
                        assert(in_scope(t, p, scope));
                    }
                }
                lemma_scope_entry(t, scope, c);
                let a = choose|a: usize|
                    #[trigger] t.kids(c).contains(a) && in_scope(t, scope, a) && t.tok(a) is Some;
                let wa = choose|wa: int| 0 <= wa < t.kids(c).len() && t.kids(c)[wa] == a;
                lemma_forest_scope_filter(t, t.kids(c), c, scope);
                assert(sub.filter(pred) == preorder_from(t, scope, e0));
            }
            assert(exists|w: int| 0 <= w < l.len() && in_scope(t, scope, #[trigger] l[w])) by {
                assert(in_scope(t, scope, l[0]));
            }
            assert(f.filter(pred) =~= (seq![c] + sub + rest).filter(pred));
        } else {
            // The scope is not under the head.
            assert forall|i: int| 0 <= i < sub.len() implies !pred(#[trigger] sub[i]) by {
                assert(sub.contains(sub[i]));
                let z = sub[i];
                if z != scope && in_scope(t, z, scope) {
                    assert(in_scope(t, z, c));
                    lemma_scope_linear(t, z, scope, c);
                    if in_scope(t, c, scope) {
                        assert(in_scope(t, p, scope));
                    }
                }
            }
            sub.lemma_all_neg_filter_empty(pred);
            if exists|w: int| 0 <= w < l.len() && in_scope(t, scope, #[trigger] l[w]) {
                let w = choose|w: int| 0 <= w < l.len() && in_scope(t, scope, #[trigger] l[w]);
                assert(w != 0);
                assert(l.drop_first()[w - 1] == l[w]);
                assert(exists|u: int|
                    0 <= u < l.drop_first().len() && in_scope(t, scope, #[trigger] l.drop_first()[u]));
                assert(f.filter(pred) =~= (seq![c] + sub + rest).filter(pred));
            } else {
                assert forall|u: int|
                    0 <= u < l.drop_first().len() implies !in_scope(
                    t,
                    scope,
                    #[trigger] l.drop_first()[u],
                ) by {
                    assert(l.drop_first()[u] == l[u + 1]);
                    if in_scope(t, scope, l[u + 1]) {
                        assert(exists|w: int|
                            0 <= w < l.len() && in_scope(t, scope, #[trigger] l[w]));
                    }
                }
                assert(f.filter(pred) =~= (seq![c] + sub + rest).filter(pred));
            }
        }
    }
}

/// Scoping, the order half: the walk scoped to a stored node is exactly
/// the full walk restricted to that node's proper descendants, in the
/// same relative order.
pub proof fn lemma_scoped_is_filtered(t: TreeView, scope: usize)
    requires
        t.wf(),
        t.tok(scope) is Some,
    ensures
        preorder_from(t, scope, Seq::<usize>::empty()) == preorder_from(
            t,
            0,
            Seq::<usize>::empty(),
        ).filter(|x: usize| x != scope && in_scope(t, x, scope)),
{
    lemma_kids_ok(t, 0);
    lemma_forest_scope_filter(t, t.kids(0), 0, scope);
    assert(scope != 0);
    assert(!in_scope(t, 0, scope)) by {
        if in_scope(t, 0, scope) {
            lemma_scope_le(t, 0, scope);
        }
    }
    lemma_chain_to_zero(t, scope);
    lemma_scope_entry(t, scope, 0);
    let a = choose|a: usize|
        #[trigger] t.kids(0).contains(a) && in_scope(t, scope, a) && t.tok(a) is Some;
    let wa = choose|wa: int| 0 <= wa < t.kids(0).len() && t.kids(0)[wa] == a;
    assert(exists|w: int| 0 <= w < t.kids(0).len() && in_scope(t, scope, #[trigger] t.kids(0)[w]));
}


} // verus!
