//! The node store: it owns every discovered node, the parent-to-children
//! adjacency, and the live buffer in which every claimed tag or comment
//! span has been replaced by a placeholder anchoring the node, while the
//! surrounding text stays as it was.
use crate::attr::spec_parse_attr;
use crate::text::{copy_range, find_sub, find_sub_from, str_to_chars};
use crate::token::{Token, TokenView};
use vstd::prelude::*;

verus! {

/// The mathematical value of one piece of the live buffer: literal text,
/// or the placeholder anchoring a node's opening or closing tag.  A
/// placeholder records the source text it replaced.
#[verifier::ext_equal]
pub ghost enum SegView {
    Text(Seq<char>),
    Open(usize, Seq<char>),
    Close(usize, Seq<char>),
}

impl SegView {
    /// The source text this piece came from.
    pub open spec fn src(self) -> Seq<char> {
        match self {
            SegView::Text(t) => t,
            SegView::Open(_, s) => s,
            SegView::Close(_, s) => s,
        }
    }
}

/// One piece of the live buffer.
pub enum Segment {
    Text(Vec<char>),
    Open(usize, Ghost<Seq<char>>),
    Close(usize, Ghost<Seq<char>>),
}

impl View for Segment {
    type V = SegView;

    open spec fn view(&self) -> SegView {
        match self {
            Segment::Text(t) => SegView::Text(t@),
            Segment::Open(id, s) => SegView::Open(*id, s@),
            Segment::Close(id, s) => SegView::Close(*id, s@),
        }
    }
}

/// The mathematical value of the node arena.
pub open spec fn toks_view(s: Seq<Option<Token>>) -> Seq<Option<TokenView>> {
    s.map_values(
        |o: Option<Token>|
            match o {
                Some(t) => Some(t@),
                None => None,
            },
    )
}

/// The mathematical value of the adjacency lists.
pub open spec fn kids_view(s: Seq<Vec<usize>>) -> Seq<Seq<usize>> {
    s.map_values(|v: Vec<usize>| v@)
}

/// The mathematical value of the buffer.
pub open spec fn segs_view(s: Seq<Segment>) -> Seq<SegView> {
    s.map_values(|g: Segment| g@)
}

/// The mathematical value of the node store.
#[verifier::ext_equal]
pub ghost struct StackView {
    /// The node currently open, `0` at top level: the parent assigned to
    /// the next pushed node.
    pub parent_id: usize,
    /// The arena: index `i` holds the node with id `i`; index `0` is the
    /// virtual document root and holds no node.
    pub tokens: Seq<Option<TokenView>>,
    /// For each id, the ids of its children in document order.
    pub children: Seq<Seq<usize>>,
    /// The live buffer.
    pub code: Seq<SegView>,
    /// The last-visited id of the traversal cursor, `0` before the start.
    pub position: usize,
    /// The scope root bounding the traversal, `0` for the whole document.
    pub parent_position: usize,
    /// Subtree roots hidden from the traversal.
    pub excludes: Seq<usize>,
}

/// The tree alone: the arena and the adjacency, without the cursor, the
/// buffer or the current parent.  Traversal is a function of this part
/// only.
#[verifier::ext_equal]
pub ghost struct TreeView {
    /// The arena: index `i` holds the node with id `i`.
    pub tokens: Seq<Option<TokenView>>,
    /// For each id, the ids of its children in document order.
    pub children: Seq<Seq<usize>>,
}

impl TreeView {
    /// The node with id `id`, if any.
    pub open spec fn tok(self, id: usize) -> Option<TokenView> {
        if id < self.tokens.len() {
            self.tokens[id as int]
        } else {
            None
        }
    }

    /// The children of `p`, in document order.
    pub open spec fn kids(self, p: usize) -> Seq<usize> {
        if p < self.children.len() {
            self.children[p as int]
        } else {
            Seq::empty()
        }
    }

    /// Structural soundness of one stored node.
    pub open spec fn tok_ok(self, i: int) -> bool {
        let t = self.tokens[i].unwrap();
        &&& t.id == i
        &&& (t.parent_id as int) < i
        &&& (t.parent_id == 0 || self.tokens[t.parent_id as int] is Some)
        &&& self.kids(t.parent_id).contains(t.id)
    }

    /// Structural soundness of one adjacency entry.
    pub open spec fn kid_ok(self, p: int, a: int) -> bool {
        let c = self.children[p][a];
        &&& p < c as int
        &&& (c as int) < self.tokens.len()
        &&& self.tokens[c as int] is Some
        &&& self.tokens[c as int].unwrap().parent_id as int == p
    }

    /// The tree's integrity model: ids index the arena, parents come
    /// strictly before their children, the adjacency lists agree with the
    /// parent links and list each node once, in increasing id order.
    pub open spec fn wf(self) -> bool {
        &&& 1 <= self.tokens.len() <= usize::MAX
        &&& self.children.len() == self.tokens.len()
        &&& self.tokens[0] is None
        &&& forall|i: int|
            0 <= i < self.tokens.len() && self.tokens[i] is Some ==> #[trigger] self.tok_ok(i)
        &&& forall|p: int, a: int|
            0 <= p < self.children.len() && 0 <= a < self.children[p].len()
                ==> #[trigger] self.kid_ok(p, a)
        &&& forall|p: int, a: int, b: int|
            0 <= p < self.children.len() && 0 <= a < b < self.children[p].len()
                ==> #[trigger] self.children[p][a] < #[trigger] self.children[p][b]
        &&& forall|p: int|
            0 <= p < self.children.len() && (#[trigger] self.children[p]).len() > 0 ==> p == 0
                || self.tokens[p] is Some
    }
}

impl StackView {
    /// The tree part of the store.
    pub open spec fn tree(self) -> TreeView {
        TreeView { tokens: self.tokens, children: self.children }
    }

    /// The node with id `id`, if any.
    pub open spec fn tok(self, id: usize) -> Option<TokenView> {
        self.tree().tok(id)
    }

    /// The children of `p`, in document order.
    pub open spec fn kids(self, p: usize) -> Seq<usize> {
        self.tree().kids(p)
    }

    /// Structural soundness of one stored node.
    pub open spec fn tok_ok(self, i: int) -> bool {
        self.tree().tok_ok(i)
    }

    /// Structural soundness of one adjacency entry.
    pub open spec fn kid_ok(self, p: int, a: int) -> bool {
        self.tree().kid_ok(p, a)
    }

    /// The store's integrity model: the tree is sound and the current
    /// parent names a real node or the root.
    pub open spec fn wf(self) -> bool {
        &&& self.tree().wf()
        &&& (self.parent_id == 0 || (self.parent_id < self.tokens.len()
            && self.tokens[self.parent_id as int] is Some))
    }

    /// The source text the buffer stands for: the concatenation of each
    /// piece's source.
    pub open spec fn source(self) -> Seq<char> {
        concat_srcs(self.code)
    }
}

/// The concatenation of the source texts of the buffer's pieces.
pub open spec fn concat_srcs(code: Seq<SegView>) -> Seq<char>
    decreases code.len(),
{
    if code.len() == 0 {
        Seq::empty()
    } else {
        code[0].src() + concat_srcs(code.drop_first())
    }
}

/// The empty store over the given source text.
pub open spec fn spec_new(code: Seq<char>) -> StackView {
    StackView {
        parent_id: 0,
        tokens: seq![None],
        children: seq![Seq::empty()],
        code: seq![SegView::Text(code)],
        position: 0,
        parent_position: 0,
        excludes: Seq::empty(),
    }
}

/// Whether a stored slot holds an open node of the given tag: present,
/// not self-closing, not yet closed.
pub open spec fn is_open_match(o: Option<TokenView>, tag: Seq<char>) -> bool {
    match o {
        Some(t) => t.tag == tag && !t.is_single && !t.is_closed,
        None => false,
    }
}

/// How many open nodes of the given tag the arena holds.
pub open spec fn count_open(toks: Seq<Option<TokenView>>, tag: Seq<char>) -> int
    decreases toks.len(),
{
    if toks.len() == 0 {
        0
    } else {
        count_open(toks.drop_last(), tag) + if is_open_match(toks.last(), tag) {
            1int
        } else {
            0int
        }
    }
}

/// The most recently opened, still-open node of the given tag: the
/// greatest matching id, or nothing.
pub open spec fn find_open_from(toks: Seq<Option<TokenView>>, tag: Seq<char>, i: int) -> Option<
    int,
>
    decreases i,
{
    if i <= 0 || i >= toks.len() {
        None
    } else if is_open_match(toks[i], tag) {
        Some(i)
    } else {
        find_open_from(toks, tag, i - 1)
    }
}

/// The first placeholder-free occurrence of `pat` in the buffer: the
/// first text piece holding it, and the offset inside that piece.
pub open spec fn seg_text_find(code: Seq<SegView>, pat: Seq<char>, k: int) -> Option<(int, int)>
    decreases code.len() - k,
{
    if k < 0 || k >= code.len() {
        None
    } else {
        match code[k] {
            SegView::Text(t) => match find_sub_from(t, pat, 0) {
                Some(j) => Some((k, j)),
                None => seg_text_find(code, pat, k + 1),
            },
            _ => seg_text_find(code, pat, k + 1),
        }
    }
}

/// The buffer with the first occurrence of `pat` in its text replaced by
/// the placeholder `seg`; unchanged where no text piece holds `pat`.
pub open spec fn spec_mark(code: Seq<SegView>, pat: Seq<char>, seg: SegView) -> Seq<SegView> {
    match seg_text_find(code, pat, 0) {
        None => code,
        Some((k, j)) => {
            let t = code[k]->Text_0;
            code.take(k) + seq![
                SegView::Text(t.subrange(0, j)),
                seg,
                SegView::Text(t.subrange(j + pat.len(), t.len() as int)),
            ] + code.skip(k + 1)
        },
    }
}

/// The node registered for one pushed tag.
pub open spec fn new_token_view(
    pre: StackView,
    id: usize,
    tag: Seq<char>,
    attr: Seq<char>,
    single: bool,
    text: Seq<char>,
) -> TokenView {
    TokenView {
        id,
        parent_id: pre.parent_id,
        is_closed: false,
        is_single: single,
        depth: (count_open(pre.tokens, tag) + if single {
            0int
        } else {
            1int
        }) as usize,
        tag,
        attrs: spec_parse_attr(attr).0,
        attr_extra: spec_parse_attr(attr).1,
        contents: if tag == seq!['!'] {
            text
        } else {
            Seq::empty()
        },
    }
}

/// The store after pushing one tag: the node is registered under the next
/// id as a child of the current parent, its source span is replaced by
/// its opening placeholder, and it becomes the current parent unless it
/// closes itself.
pub open spec fn spec_push(
    pre: StackView,
    tag: Seq<char>,
    attr: Seq<char>,
    single: bool,
    text: Seq<char>,
) -> StackView {
    let id = pre.tokens.len() as usize;
    StackView {
        tokens: pre.tokens.push(Some(new_token_view(pre, id, tag, attr, single, text))),
        children: pre.children.update(
            pre.parent_id as int,
            pre.kids(pre.parent_id).push(id),
        ).push(Seq::empty()),
        code: spec_mark(pre.code, text, SegView::Open(id, text)),
        parent_id: if single {
            pre.parent_id
        } else {
            id
        },
        ..pre
    }
}

/// The store after one close tag: the most recently opened node of the
/// tag is marked closed, its span is replaced by its closing placeholder,
/// and the current parent is restored to that node's parent; a close with
/// no open match changes nothing.
pub open spec fn spec_close(pre: StackView, tag: Seq<char>, text: Seq<char>) -> StackView {
    match find_open_from(pre.tokens, tag, pre.tokens.len() - 1) {
        None => pre,
        Some(i) => {
            let t = pre.tokens[i].unwrap();
            let mid = StackView { code: spec_mark(pre.code, text, SegView::Close(t.id, text)), ..pre };
            let contents = match seg_pair(mid, t.id) {
                Some(pair) => render_range(mid, pair.0 + 1, pair.1),
                None => t.contents,
            };
            StackView {
                tokens: pre.tokens.update(i, Some(TokenView { is_closed: true, contents, ..t })),
                code: mid.code,
                parent_id: t.parent_id,
                ..pre
            }
        },
    }
}

/// The node store.
pub struct Stack {
    parent_id: usize,
    tokens: Vec<Option<Token>>,
    children: Vec<Vec<usize>>,
    code: Vec<Segment>,
    position: usize,
    parent_position: usize,
    excludes: Vec<usize>,
}

impl View for Stack {
    type V = StackView;

    closed spec fn view(&self) -> StackView {
        StackView {
            parent_id: self.parent_id,
            tokens: toks_view(self.tokens@),
            children: kids_view(self.children@),
            code: segs_view(self.code@),
            position: self.position,
            parent_position: self.parent_position,
            excludes: self.excludes@,
        }
    }
}

/// Appending a slot appends its mathematical value.
proof fn lemma_toks_view_push(s: Seq<Option<Token>>, o: Option<Token>)
    ensures
        toks_view(s.push(o)) =~= toks_view(s).push(
            match o {
                Some(t) => Some(t@),
                None => None,
            },
        ),
{
    assert forall|t: int| 0 <= t < s.len() + 1 implies #[trigger] toks_view(s.push(o))[t]
        == toks_view(s).push(
        match o {
            Some(t2) => Some(t2@),
            None => None,
        },
    )[t] by {
        if t < s.len() {
            assert(s.push(o)[t] == s[t]);
        } else {
            assert(s.push(o)[t] == o);
        }
    }
}

/// Appending an adjacency list appends its mathematical value.
proof fn lemma_kids_view_push(s: Seq<Vec<usize>>, v: Vec<usize>)
    ensures
        kids_view(s.push(v)) =~= kids_view(s).push(v@),
{
    assert forall|t: int| 0 <= t < s.len() + 1 implies #[trigger] kids_view(s.push(v))[t]
        == kids_view(s).push(v@)[t] by {
        if t < s.len() {
            assert(s.push(v)[t] == s[t]);
        } else {
            assert(s.push(v)[t] == v);
        }
    }
}

/// Updating an adjacency list updates its mathematical value.
proof fn lemma_kids_view_update(s: Seq<Vec<usize>>, i: int, v: Vec<usize>)
    requires
        0 <= i < s.len(),
    ensures
        kids_view(s.update(i, v)) =~= kids_view(s).update(i, v@),
{
    assert forall|t: int| 0 <= t < s.len() implies #[trigger] kids_view(s.update(i, v))[t]
        == kids_view(s).update(i, v@)[t] by {
        if t != i {
            assert(s.update(i, v)[t] == s[t]);
        } else {
            assert(s.update(i, v)[t] == v);
        }
    }
}

/// Updating a slot updates its mathematical value.
proof fn lemma_toks_view_update(s: Seq<Option<Token>>, i: int, o: Option<Token>)
    requires
        0 <= i < s.len(),
    ensures
        toks_view(s.update(i, o)) =~= toks_view(s).update(
            i,
            match o {
                Some(t) => Some(t@),
                None => None,
            },
        ),
{
    assert forall|t: int| 0 <= t < s.len() implies #[trigger] toks_view(s.update(i, o))[t]
        == toks_view(s).update(
        i,
        match o {
            Some(t2) => Some(t2@),
            None => None,
        },
    )[t] by {
        if t != i {
            assert(s.update(i, o)[t] == s[t]);
        } else {
            assert(s.update(i, o)[t] == o);
        }
    }
}

/// Replaces the first occurrence of `pat` among the buffer's text pieces
/// with the placeholder `seg`, as `spec_mark`.
fn mark_segment(code: &mut Vec<Segment>, pat: &Vec<char>, seg: Segment)
    ensures
        segs_view(final(code)@) == spec_mark(segs_view(old(code)@), pat@, seg@),
{
    let ghost pre = segs_view(old(code)@);
    let mut k: usize = 0;
    while k < code.len()
        invariant
            k <= code@.len(),
            segs_view(code@) == pre,
            pre == segs_view(old(code)@),
            seg_text_find(pre, pat@, 0) == seg_text_find(pre, pat@, k as int),
        decreases code@.len() - k,
    {
        proof {
            assert(segs_view(code@)[k as int] == code@[k as int]@);
        }
        let hit: Option<usize> = match &code[k] {
            Segment::Text(t) => find_sub(t, pat, 0),
            _ => None,
        };
        match hit {
            Some(j) => {
                proof {
                    crate::text::lemma_find_sub_from_some(code@[k as int]->Text_0@, pat@, 0);
                    assert(seg_text_find(pre, pat@, k as int) == Some((k as int, j as int)));
                }
                let (before, after) = match &code[k] {
                    Segment::Text(t) => {
                        proof {
                            assert(j + pat@.len() <= t@.len());
                            assert(t@.len() == t.len());
                        }
                        (copy_range(t, 0, j), copy_range(t, j + pat.len(), t.len()))
                    },
                    _ => {
                        proof {
                            assert(false);
                        }
                        (Vec::new(), Vec::new())
                    },
                };
                let ghost sv = seg@;
                code.set(k, Segment::Text(before));
                code.insert(k + 1, Segment::Text(after));
                code.insert(k + 1, seg);
                proof {
                    let t = pre[k as int]->Text_0;
                    let target = pre.take(k as int) + seq![
                        SegView::Text(t.subrange(0, j as int)),
                        sv,
                        SegView::Text(t.subrange(j + pat@.len(), t.len() as int)),
                    ] + pre.skip(k as int + 1);
                    assert forall|x: int| 0 <= x < pre.len() + 2 implies #[trigger] segs_view(
                        code@,
                    )[x] == target[x] by {
                        if x < k as int {
                        } else if x == k as int {
                        } else if x == k + 1 {
                        } else if x == k + 2 {
                        } else {
                        }
                    }
                    assert(segs_view(code@) =~= target);
                    assert(spec_mark(pre, pat@, sv) == target);
                    assert(segs_view(code@) == spec_mark(pre, pat@, sv));
                    assert(sv == seg@);
                }
                return ;
            },
            None => {
                proof {
                    assert(seg_text_find(pre, pat@, k as int) == seg_text_find(
                        pre,
                        pat@,
                        k as int + 1,
                    ));
                }
                k = k + 1;
            },
        }
    }
    proof {
        assert(seg_text_find(pre, pat@, k as int) is None);
    }
}

impl Stack {
    /// A fresh store over the given source text: one text piece, no
    /// nodes.
    pub fn new(code: &str) -> (r: Self)
        ensures
            r@ == spec_new(code@),
            r@.wf(),
    {
        let chars = str_to_chars(code);
        let r = Stack {
            parent_id: 0,
            tokens: vec![None],
            children: vec![Vec::new()],
            code: vec![Segment::Text(chars)],
            position: 0,
            parent_position: 0,
            excludes: Vec::new(),
        };
        proof {
            assert(r@.tokens =~= seq![Option::<TokenView>::None]);
            assert(r@.children =~= seq![Seq::<usize>::empty()]);
            assert(r@.code =~= seq![SegView::Text(code@)]);
            assert(r@ =~= spec_new(code@));
        }
        r
    }

    /// Pushes one opening or self-closing tag, as `spec_push`; returns
    /// the id assigned to it.
    pub fn push(&mut self, tag: &str, attr_string: &str, is_single: &bool, tag_string: &str) -> (id:
        usize)
        requires
            old(self)@.wf(),
        ensures
            final(self)@ == spec_push(old(self)@, tag@, attr_string@, *is_single, tag_string@),
            id == old(self)@.tokens.len(),
            final(self)@.wf(),
    {
        let ghost pre = self@;
        let id: usize = self.tokens.len();

        // The nesting rank among open nodes of this tag.
        let tag_chars = str_to_chars(tag);
        let mut cnt: usize = 0;
        let mut i: usize = 0;
        while i < self.tokens.len()
            invariant
                i <= self.tokens@.len(),
                self@ == pre,
                pre.wf(),
                tag_chars@ == tag@,
                cnt <= i,
                i >= 1 ==> cnt < i,
                cnt == count_open(pre.tokens.take(i as int), tag_chars@),
            decreases self.tokens@.len() - i,
        {
            let open_here: bool = match &self.tokens[i] {
                Some(t) => {
                    !t.is_self_closing() && !t.is_closed() && crate::text::chars_eq(
                        t.tag_chars(),
                        &tag_chars,
                    )
                },
                None => false,
            };
            proof {
                assert(toks_view(self.tokens@)[i as int] == (match self.tokens@[i as int] {
                    Some(t) => Some(t@),
                    None => None,
                }));
                assert(pre.tokens.take(i as int + 1).drop_last() =~= pre.tokens.take(i as int));
                assert(pre.tokens.take(i as int + 1).last() == pre.tokens[i as int]);
            }
            if open_here {
                cnt = cnt + 1;
            }
            i = i + 1;
        }
        proof {
            assert(pre.tokens.take(pre.tokens.len() as int) =~= pre.tokens);
        }
        let depth: usize = if *is_single {
            cnt
        } else {
            cnt + 1
        };

        // Register the node.
        let bang: bool = tag_chars.len() == 1 && tag_chars[0] == '!';
        proof {
            assert(bang == (tag@ =~= seq!['!']));
        }
        let contents: &str = if bang {
            tag_string
        } else {
            ""
        };
        let token = Token::new(&id, &self.parent_id, &depth, is_single, tag, attr_string, contents);
        let ghost pre_toks = self.tokens@;
        self.tokens.push(Some(token));
        proof {
            lemma_toks_view_push(pre_toks, Some(token));
            reveal_strlit("");
            assert(""@ =~= Seq::<char>::empty());
            assert(token@ =~= new_token_view(pre, id, tag@, attr_string@, *is_single, tag_string@));
        }

        // Record the child under the current parent and give the node an
        // empty child list of its own.
        let p: usize = self.parent_id;
        let ghost pre_children = self.children@;
        self.children[p].push(id);
        proof {
            assert(kids_view(self.children@) =~= kids_view(pre_children).update(
                p as int,
                pre.kids(p).push(id),
            )) by {
                assert forall|t: int| 0 <= t < pre_children.len() implies #[trigger] kids_view(
                    self.children@,
                )[t] == kids_view(pre_children).update(p as int, pre.kids(p).push(id))[t] by {
                    if t != p as int {
                        assert(self.children@[t] == pre_children[t]);
                    }
                }
            }
        }
        let ghost mid_children = self.children@;
        let fresh_list: Vec<usize> = Vec::new();
        let ghost fresh = fresh_list;
        self.children.push(fresh_list);
        proof {
            lemma_kids_view_push(mid_children, fresh);
        }

        // Replace the source span with the opening placeholder.
        let span = str_to_chars(tag_string);
        mark_segment(&mut self.code, &span, Segment::Open(id, Ghost(span@)));

        // The new node becomes the current parent unless it closed
        // itself.
        if !*is_single {
            self.parent_id = id;
        }
        proof {
            assert(self@ =~= spec_push(pre, tag@, attr_string@, *is_single, tag_string@));
            assert(toks_view(self.tokens@).len() == self.tokens.len());
            assert(pre.tokens.len() < usize::MAX);
            lemma_wf_push(pre, tag@, attr_string@, *is_single, tag_string@);
        }
        id
    }

    /// Closes the most recently opened node of the tag, as `spec_close`:
    /// a no-op when no open node of that name exists.
    pub fn close_tag(&mut self, tag: &str, tag_string: &str)
        requires
            old(self)@.wf(),
        ensures
            final(self)@ == spec_close(old(self)@, tag@, tag_string@),
            final(self)@.wf(),
    {
        let ghost pre = self@;
        let tag_chars = str_to_chars(tag);

        // Find the greatest open match.
        let mut found: Option<usize> = None;
        let mut i: usize = self.tokens.len();
        while i > 1 && found.is_none()
            invariant
                i <= self.tokens@.len(),
                self@ == pre,
                pre.wf(),
                tag_chars@ == tag@,
                match found {
                    Some(f) => 0 < f < pre.tokens.len() && is_open_match(
                        pre.tokens[f as int],
                        tag@,
                    ) && find_open_from(pre.tokens, tag@, pre.tokens.len() - 1) == Some(f as int),
                    None => find_open_from(pre.tokens, tag@, pre.tokens.len() - 1)
                        == find_open_from(pre.tokens, tag@, i as int - 1),
                },
            decreases i,
        {
            let j = i - 1;
            let open_here: bool = match &self.tokens[j] {
                Some(t) => {
                    !t.is_self_closing() && !t.is_closed() && crate::text::chars_eq(
                        t.tag_chars(),
                        &tag_chars,
                    )
                },
                None => false,
            };
            proof {
                assert(toks_view(self.tokens@)[j as int] == (match self.tokens@[j as int] {
                    Some(t) => Some(t@),
                    None => None,
                }));
            }
            if open_here {
                found = Some(j);
            }
            i = j;
        }
        match found {
            None => {
                proof {
                    assert(find_open_from(pre.tokens, tag@, 0) is None);
                    assert(self@ =~= spec_close(pre, tag@, tag_string@));
                }
            },
            Some(f) => {
                let ghost t_old = pre.tokens[f as int].unwrap();
                proof {
                    assert(pre.tree().tok_ok(f as int));
                }

                // Replace the close span with the closing placeholder.
                let span = str_to_chars(tag_string);
                mark_segment(&mut self.code, &span, Segment::Close(f, Ghost(span@)));

                // Resolve the contents now recorded between the pair.
                let ghost mid = self@;
                let resolved: Option<String> = match self.content_pair(f) {
                    Some(pair) => {
                        let chars = self.render_slice(pair.0 + 1, pair.1);
                        Some(crate::text::chars_to_string(&chars))
                    },
                    None => None,
                };

                // Mark the node closed and restore the current parent.
                let ghost pre_toks = self.tokens@;
                let mut parent: usize = 0;
                match &mut self.tokens[f] {
                    Some(t) => {
                        parent = t.parent_id();
                        t.mark_closed();
                        match &resolved {
                            Some(text) => {
                                t.set_contents(text.as_str());
                            },
                            None => {},
                        }
                    },
                    None => {
                        proof {
                            assert(false);
                        }
                    },
                }
                self.parent_id = parent;
                proof {
                    lemma_toks_view_update(
                        pre_toks,
                        f as int,
                        self.tokens@[f as int],
                    );
                    let contents = match seg_pair(mid, t_old.id) {
                        Some(pair) => render_range(mid, pair.0 + 1, pair.1),
                        None => t_old.contents,
                    };
                    assert(toks_view(self.tokens@) =~= pre.tokens.update(
                        f as int,
                        Some(TokenView { is_closed: true, contents, ..t_old }),
                    ));
                    assert(self@ =~= spec_close(pre, tag@, tag_string@));
                    lemma_wf_close(pre, tag@, tag_string@);
                }
            },
        }
    }

    /// A copy of the node with the given id, if it exists.
    pub fn get(&mut self, token_id: &usize) -> (r: Option<Token>)
        ensures
            *final(self) == *old(self),
            match r {
                Some(t) => old(self)@.tok(*token_id) == Some(t@),
                None => old(self)@.tok(*token_id) is None,
            },
    {
        if *token_id < self.tokens.len() {
            match &self.tokens[*token_id] {
                Some(t) => Some(t.clone()),
                None => None,
            }
        } else {
            None
        }
    }

    /// Stores a copy of the given node over the stored node with the same
    /// id.  The copy is taken only when the stored node exists and has
    /// the same parent, so that the tree's integrity is kept.
    pub fn save(&mut self, token: &Token)
        requires
            old(self)@.wf(),
        ensures
            final(self)@.wf(),
            final(self)@ == if save_applies(old(self)@, token@) {
                StackView {
                    tokens: old(self)@.tokens.update(token@.id as int, Some(token@)),
                    ..old(self)@
                }
            } else {
                old(self)@
            },
    {
        let ghost pre = self@;
        let id = token.id();
        let mut applies: bool = false;
        if id < self.tokens.len() {
            match &self.tokens[id] {
                Some(t) => {
                    applies = t.id() == id && t.parent_id() == token.parent_id();
                },
                None => {},
            }
        }
        proof {
            assert(applies == save_applies(pre, token@));
        }
        if applies {
            let ghost pre_toks = self.tokens@;
            let copy = token.clone();
            self.tokens.set(id, Some(copy));
            proof {
                lemma_toks_view_update(pre_toks, id as int, Some(copy));
                assert(self@ =~= (StackView {
                    tokens: pre.tokens.update(token@.id as int, Some(token@)),
                    ..pre
                }));
                lemma_wf_save(pre, token@);
            }
        }
    }

    /// Sets the scope for the next traversal: the cursor restarts at the
    /// given id and stops when its subtree is exhausted.
    pub fn set_parent_position(&mut self, parent_id: &usize)
        ensures
            final(self)@ == (StackView {
                position: *parent_id,
                parent_position: *parent_id,
                ..old(self)@
            }),
    {
        self.position = *parent_id;
        self.parent_position = *parent_id;
    }

    /// Sets the subtrees hidden from the next traversal.
    pub fn set_excludes(&mut self, excludes: &Vec<usize>)
        ensures
            final(self)@ == (StackView { excludes: excludes@, ..old(self)@ }),
    {
        let mut copy: Vec<usize> = Vec::new();
        let mut i: usize = 0;
        while i < excludes.len()
            invariant
                i <= excludes@.len(),
                copy@ == excludes@.take(i as int),
            decreases excludes@.len() - i,
        {
            copy.push(excludes[i]);
            i = i + 1;
            proof {
                assert(copy@ =~= excludes@.take(i as int));
            }
        }
        proof {
            assert(excludes@.take(excludes@.len() as int) =~= excludes@);
        }
        self.excludes = copy;
    }
}

/// Whether `save` replaces the stored node: it exists and the parent link
/// agrees.
pub open spec fn save_applies(sv: StackView, t: TokenView) -> bool {
    &&& sv.tok(t.id) is Some
    &&& sv.tok(t.id).unwrap().id == t.id
    &&& sv.tok(t.id).unwrap().parent_id == t.parent_id
}

/// Pushing a tag keeps the store well-formed.
proof fn lemma_wf_push(pre: StackView, tag: Seq<char>, attr: Seq<char>, single: bool, text: Seq<char>)
    requires
        pre.wf(),
        pre.tokens.len() < usize::MAX,
    ensures
        spec_push(pre, tag, attr, single, text).wf(),
{
    let post = spec_push(pre, tag, attr, single, text);
    let n = pre.tokens.len() as int;
    let id = pre.tokens.len() as usize;
    let p = pre.parent_id;
    assert(id as int == n);
    assert(post.tokens.len() == n + 1);
    assert(post.children.len() == n + 1);
    assert(post.tokens[0] is None);
    assert(post.kids(p) == pre.kids(p).push(id));
    assert forall|i: int| 0 <= i < post.tokens.len() && post.tokens[i] is Some implies #[trigger]
        post.tree().tok_ok(i) by {
        if i < n {
            assert(pre.tree().tok_ok(i));
            let t = pre.tokens[i].unwrap();
            assert(post.tokens[i] == pre.tokens[i]);
            assert(post.tokens[t.parent_id as int] == pre.tokens[t.parent_id as int]);
            if t.parent_id == p {
                assert(pre.kids(p).contains(t.id));
                let w = choose|w: int| 0 <= w < pre.kids(p).len() && pre.kids(p)[w] == t.id;
                assert(post.kids(p)[w] == t.id);
                assert(post.kids(p).contains(t.id));
            } else {
                assert(post.kids(t.parent_id) == pre.kids(t.parent_id));
            }
        } else {
            assert(post.tokens[i] == Some(new_token_view(pre, id, tag, attr, single, text)));
            let t = post.tokens[i].unwrap();
            assert(t.id == id);
            assert(t.parent_id == p);
            assert(post.tokens[p as int] == pre.tokens[p as int]);
            assert(post.kids(p)[pre.kids(p).len() as int] == id);
            assert(post.kids(p).contains(t.id));
        }
    }
    assert forall|q: int, a: int|
        0 <= q < post.children.len() && 0 <= a < post.children[q].len() implies #[trigger]
        post.tree().kid_ok(q, a) by {
        if q == p as int && a == post.children[q].len() - 1 {
            assert(post.children[q][a] == id);
            assert(post.tokens[id as int] == Some(new_token_view(pre, id, tag, attr, single, text)));
        } else if q < n {
            assert(post.children[q][a] == pre.children[q][a]);
            assert(pre.tree().kid_ok(q, a));
            let c = pre.children[q][a];
            assert(post.tokens[c as int] == pre.tokens[c as int]);
        } else {
            assert(post.children[q].len() == 0);
        }
    }
    assert forall|q: int, a: int, b: int|
        0 <= q < post.tree().children.len() && 0 <= a < b < post.tree().children[q].len() implies
        #[trigger] post.tree().children[q][a] < #[trigger] post.tree().children[q][b] by {
        if q == p as int && b == post.children[q].len() - 1 {
            assert(post.children[q][a] == pre.children[q][a]);
            assert(pre.tree().kid_ok(q, a));
            assert(pre.children[q][a] < id);
        } else if q < n {
            assert(post.children[q][a] == pre.children[q][a]);
            assert(post.children[q][b] == pre.children[q][b]);
        }
    }
    assert forall|q: int|
        0 <= q < post.tree().children.len() && (#[trigger] post.tree().children[q]).len() > 0
        implies q == 0 || post.tree().tokens[q] is Some by {
        if q == p as int {
            assert(post.tokens[q] == pre.tokens[q]);
        } else if q < n {
            assert(post.tree().children[q] == pre.children[q]);
            assert(post.tokens[q] == pre.tokens[q]);
        }
    }
}

/// Closing a tag keeps the store well-formed.
proof fn lemma_wf_close(pre: StackView, tag: Seq<char>, text: Seq<char>)
    requires
        pre.wf(),
    ensures
        spec_close(pre, tag, text).wf(),
{
    let post = spec_close(pre, tag, text);
    match find_open_from(pre.tokens, tag, pre.tokens.len() - 1) {
        None => {},
        Some(f) => {
            lemma_find_open_valid(pre.tokens, tag, pre.tokens.len() - 1);
            let t = pre.tokens[f].unwrap();
            let mid = StackView { code: spec_mark(pre.code, text, SegView::Close(t.id, text)), ..pre };
            let contents = match seg_pair(mid, t.id) {
                Some(pair) => render_range(mid, pair.0 + 1, pair.1),
                None => t.contents,
            };
            assert(pre.tree().tok_ok(f));
            assert forall|i: int|
                0 <= i < post.tokens.len() && post.tokens[i] is Some implies #[trigger] post.tree().tok_ok(
                i,
            ) by {
                assert(pre.tree().tok_ok(i));
                if i != f {
                    assert(post.tokens[i] == pre.tokens[i]);
                }
            }
            assert forall|q: int, a: int|
                0 <= q < post.children.len() && 0 <= a < post.children[q].len() implies #[trigger]
                post.tree().kid_ok(q, a) by {
                assert(pre.tree().kid_ok(q, a));
            }
            assert forall|q: int|
                0 <= q < post.tree().children.len() && (#[trigger] post.tree().children[q]).len()
                    > 0 implies q == 0 || post.tree().tokens[q] is Some by {
                if q != f {
                    assert(post.tokens[q] == pre.tokens[q]);
                }
            }
        },
    }
}

/// A found open match names a real stored node.
proof fn lemma_find_open_valid(toks: Seq<Option<TokenView>>, tag: Seq<char>, i: int)
    ensures
        match find_open_from(toks, tag, i) {
            Some(f) => 0 < f < toks.len() && is_open_match(toks[f], tag),
            None => true,
        },
    decreases i,
{
    if i <= 0 || i >= toks.len() {
    } else if is_open_match(toks[i], tag) {
    } else {
        lemma_find_open_valid(toks, tag, i - 1);
    }
}

/// Saving a node keeps the store well-formed: the id and the parent link
/// are unchanged.
proof fn lemma_wf_save(pre: StackView, t: TokenView)
    requires
        pre.wf(),
        save_applies(pre, t),
    ensures
        (StackView { tokens: pre.tokens.update(t.id as int, Some(t)), ..pre }).wf(),
{
    let post = StackView { tokens: pre.tokens.update(t.id as int, Some(t)), ..pre };
    let old_t = pre.tokens[t.id as int].unwrap();
    assert(pre.tree().tok_ok(t.id as int));
    assert forall|i: int|
        0 <= i < post.tokens.len() && post.tokens[i] is Some implies #[trigger] post.tree().tok_ok(i) by {
        assert(pre.tree().tok_ok(i));
        if i != t.id as int {
            assert(post.tokens[i] == pre.tokens[i]);
            let u = pre.tokens[i].unwrap();
            if u.parent_id == t.id {
                assert(post.tokens[u.parent_id as int] is Some);
            }
        } else {
            assert(old_t.id == t.id && old_t.parent_id == t.parent_id);
        }
    }
    assert forall|q: int, a: int|
        0 <= q < post.children.len() && 0 <= a < post.children[q].len() implies #[trigger]
        post.tree().kid_ok(q, a) by {
        assert(pre.tree().kid_ok(q, a));
    }
    assert forall|q: int|
        0 <= q < post.tree().children.len() && (#[trigger] post.tree().children[q]).len() > 0
        implies q == 0 || post.tree().tokens[q] is Some by {
        if q != t.id as int {
            assert(post.tokens[q] == pre.tokens[q]);
        }
    }
}


/// The pre-order of the forest below `p` whose roots are the ids of `l`:
/// each root not under exclusion, followed by its own subtree, left to
/// right.
pub open spec fn forest_ex(t: TreeView, l: Seq<usize>, p: usize, e: Seq<usize>) -> Seq<usize>
    decreases t.tokens.len() - p, l.len(),
{
    if l.len() == 0 {
        Seq::empty()
    } else {
        let c = l[0];
        let rest = forest_ex(t, l.drop_first(), p, e);
        if e.contains(c) {
            rest
        } else if p < c && (c as int) < t.tokens.len() {
            seq![c] + forest_ex(t, t.kids(c), c, e) + rest
        } else {
            seq![c] + rest
        }
    }
}

/// The pre-order of the subtree below `p`, the node `p` itself excluded.
pub open spec fn preorder_from(t: TreeView, p: usize, e: Seq<usize>) -> Seq<usize> {
    forest_ex(t, t.kids(p), p, e)
}

/// Whether the chain of parent links from `x` reaches `scope`.
pub open spec fn in_scope(t: TreeView, x: usize, scope: usize) -> bool
    decreases x,
{
    if x == scope {
        true
    } else if x == 0 || t.tok(x) is None {
        false
    } else {
        let p = t.tok(x).unwrap().parent_id;
        if p < x {
            in_scope(t, p, scope)
        } else {
            false
        }
    }
}

/// What a traversal has left after finishing the subtree of `x`: the
/// siblings after `x` with their subtrees, then the same one level up,
/// until the scope root.
pub open spec fn up_chain(t: TreeView, x: usize, scope: usize, e: Seq<usize>) -> Seq<usize>
    decreases x,
{
    if x == scope || x == 0 || t.tok(x) is None {
        Seq::empty()
    } else {
        let p = t.tok(x).unwrap().parent_id;
        if p < x {
            forest_ex(t, t.kids(p).skip(t.kids(p).index_of(x) + 1), p, e) + up_chain(
                t,
                p,
                scope,
                e,
            )
        } else {
            Seq::empty()
        }
    }
}

/// The ids a traversal of the store has still to visit, in order.
pub open spec fn remaining(sv: StackView) -> Seq<usize> {
    forest_ex(sv.tree(), sv.tree().kids(sv.position), sv.position, sv.excludes) + up_chain(
        sv.tree(),
        sv.position,
        sv.parent_position,
        sv.excludes,
    )
}

/// The cursor stands somewhere sound: freshly set to the scope root, or
/// on a real node inside the scope.
pub open spec fn cursor_ok(sv: StackView) -> bool {
    sv.position == sv.parent_position || (sv.tok(sv.position) is Some && in_scope(
        sv.tree(),
        sv.position,
        sv.parent_position,
    ) && (sv.parent_position == 0 || sv.tok(sv.parent_position) is Some))
}

/// Skipping an excluded root leaves the forest unchanged.
proof fn lemma_forest_skip_excl(t: TreeView, l: Seq<usize>, p: usize, e: Seq<usize>, i: int)
    requires
        0 <= i < l.len(),
        e.contains(l[i]),
    ensures
        forest_ex(t, l.skip(i), p, e) == forest_ex(t, l.skip(i + 1), p, e),
{
    assert(l.skip(i).drop_first() =~= l.skip(i + 1));
    assert(l.skip(i)[0] == l[i]);
}

/// A kept root heads the forest, followed by its subtree and the rest.
proof fn lemma_forest_skip_head(t: TreeView, l: Seq<usize>, p: usize, e: Seq<usize>, i: int)
    requires
        0 <= i < l.len(),
        !e.contains(l[i]),
        p < l[i],
        (l[i] as int) < t.tokens.len(),
    ensures
        forest_ex(t, l.skip(i), p, e) == seq![l[i]] + forest_ex(t, t.kids(l[i]), l[i], e)
            + forest_ex(t, l.skip(i + 1), p, e),
{
    assert(l.skip(i).drop_first() =~= l.skip(i + 1));
    assert(l.skip(i)[0] == l[i]);
}

/// In a strictly increasing list every element is its own first index.
proof fn lemma_sorted_index(l: Seq<usize>, i: int)
    requires
        0 <= i < l.len(),
        forall|a: int, b: int| 0 <= a < b < l.len() ==> l[a] < l[b],
    ensures
        l.index_of(l[i]) == i,
{
    assert(l.contains(l[i]));
    let j = l.index_of(l[i]);
    assert(0 <= j < l.len() && l[j] == l[i]);
    if j < i {
        assert(l[j] < l[i]);
    } else if j > i {
        assert(l[i] < l[j]);
    }
}

/// The scope root never exceeds a node inside its subtree.
proof fn lemma_in_scope_le(t: TreeView, x: usize, scope: usize)
    requires
        in_scope(t, x, scope),
    ensures
        scope <= x,
    decreases x,
{
    if x == scope {
    } else {
        let p = t.tok(x).unwrap().parent_id;
        lemma_in_scope_le(t, p, scope);
    }
}

impl Stack {
    /// The index of `c` in the child list of `par`.
    fn child_index_of(&self, par: usize, c: usize) -> (r: usize)
        requires
            self@.tree().kids(par).contains(c),
        ensures
            r < self@.tree().kids(par).len(),
            r < usize::MAX,
            self@.tree().kids(par)[r as int] == c,
    {
        proof {
            assert(self@.tree().kids(par).len() > 0);
            assert(par < self@.children.len());
            assert(kids_view(self.children@)[par as int] == self.children@[par as int]@);
        }
        let mut idx: usize = 0;
        let n: usize = self.children[par].len();
        while idx < n
            invariant
                idx <= n,
                par < self.children@.len(),
                n == self@.tree().kids(par).len(),
                self@.tree().kids(par) == self.children@[par as int]@,
                self@.tree().kids(par).contains(c),
                forall|j: int| 0 <= j < idx ==> self@.tree().kids(par)[j] != c,
            decreases n - idx,
        {
            if self.children[par][idx] == c {
                return idx;
            }
            idx = idx + 1;
        }
        proof {
            let w = choose|w: int|
                0 <= w < self@.tree().kids(par).len() && self@.tree().kids(par)[w] == c;
            assert(false);
        }
        0
    }

    /// One pre-order step: descends to the first non-excluded child, else
    /// takes the next sibling, walking up as levels are exhausted; stops
    /// at the scope root.  Advances the cursor to the head of the
    /// remaining pre-order sequence, or reports the traversal done.
    fn get_next_position(&mut self) -> (r: Option<usize>)
        requires
            old(self)@.wf(),
            cursor_ok(old(self)@),
        ensures
            final(self)@.wf(),
            cursor_ok(final(self)@),
            match r {
                Some(x) => remaining(old(self)@).len() > 0 && x == remaining(old(self)@)[0]
                    && old(self)@.tok(x) is Some && final(self)@ == (StackView {
                    position: x,
                    ..old(self)@
                }) && remaining(final(self)@) == remaining(old(self)@).skip(1),
                None => remaining(old(self)@).len() == 0 && final(self)@ == old(self)@,
            },
    {
        let ghost pre = self@;
        let ghost tr = pre.tree();
        let ghost e = pre.excludes;
        let scope: usize = self.parent_position;
        let mut p: usize = self.position;
        let mut i: usize = 0;
        proof {
            assert(tr.kids(pre.position).skip(0) =~= tr.kids(pre.position));
            assert(in_scope(tr, pre.position, scope));
        }
        loop
            invariant
                self@ == pre,
                pre == old(self)@,
                pre.wf(),
                cursor_ok(pre),
                tr == pre.tree(),
                e == pre.excludes,
                scope == pre.parent_position,
                in_scope(tr, p, scope),
                i <= tr.kids(p).len(),
                remaining(pre) == forest_ex(tr, tr.kids(p).skip(i as int), p, e) + up_chain(
                    tr,
                    p,
                    scope,
                    e,
                ),
            decreases p, tr.kids(p).len() - i,
        {
            let nk: usize = if p < self.children.len() {
                proof {
                    assert(kids_view(self.children@)[p as int] == self.children@[p as int]@);
                }
                self.children[p].len()
            } else {
                0
            };
            proof {
                assert(nk == tr.kids(p).len());
            }
            if i < nk {
                let c = self.children[p][i];
                proof {
                    assert(c == tr.kids(p)[i as int]);
                }
                if crate::text::contains_id(&self.excludes, c) {
                    proof {
                        lemma_forest_skip_excl(tr, tr.kids(p), p, e, i as int);
                        assert(tr.kids(p).skip(i as int).skip(1) =~= tr.kids(p).skip(i as int + 1));
                    }
                    i = i + 1;
                } else {
                    proof {
                        assert(tr.kid_ok(p as int, i as int));
                        lemma_forest_skip_head(tr, tr.kids(p), p, e, i as int);
                        lemma_sorted_index(tr.kids(p), i as int);
                        lemma_in_scope_le(tr, p, scope);
                        let post = StackView { position: c, ..pre };
                        assert(post.tree() =~= tr);
                        assert(in_scope(tr, c, scope));
                        assert(c != scope);
                        assert(up_chain(tr, c, scope, e) == forest_ex(
                            tr,
                            tr.kids(p).skip(i as int + 1),
                            p,
                            e,
                        ) + up_chain(tr, p, scope, e));
                        assert(remaining(post) =~= remaining(pre).skip(1));
                        assert(scope == 0 || pre.tok(scope) is Some) by {
                            if pre.position == scope && scope != 0 {
                                assert(tr.kids(scope).len() > 0);
                            }
                        }
                    }
                    self.position = c;
                    return Some(c);
                }
            } else {
                proof {
                    assert(tr.kids(p).skip(i as int) =~= Seq::<usize>::empty());
                    assert(remaining(pre) == up_chain(tr, p, scope, e));
                }
                if p == 0 || (scope > 0 && p == scope) {
                    proof {
                        assert(up_chain(tr, p, scope, e) == Seq::<usize>::empty());
                        assert(remaining(pre).len() == 0);
                    }
                    return None;
                }
                proof {
                    assert(p != scope);
                    assert(tr.tok(p) is Some);
                    assert(p < self.tokens@.len());
                }
                let par: usize = match &self.tokens[p] {
                    Some(t) => t.parent_id(),
                    None => {
                        proof {
                            assert(toks_view(self.tokens@)[p as int] == (
                            match self.tokens@[p as int] {
                                Some(t) => Some(t@),
                                None => None,
                            }));
                            assert(false);
                        }
                        0
                    },
                };
                proof {
                    assert(toks_view(self.tokens@)[p as int] == (match self.tokens@[p as int] {
                        Some(t) => Some(t@),
                        None => None,
                    }));
                    assert(par == tr.tok(p).unwrap().parent_id);
                    assert(tr.tok_ok(p as int));
                    assert(par < p);
                    assert(tr.kids(par).contains(p));
                }
                let pi: usize = self.child_index_of(par, p);
                proof {
                    lemma_sorted_index(tr.kids(par), pi as int);
                    assert(tr.kids(par).index_of(p) == pi);
                    assert(up_chain(tr, p, scope, e) == forest_ex(
                        tr,
                        tr.kids(par).skip(pi as int + 1),
                        par,
                        e,
                    ) + up_chain(tr, par, scope, e));
                    assert(in_scope(tr, par, scope));
                }
                i = pi + 1;
                p = par;
            }
        }
    }

    /// Pulls the next node of the traversal, in pre-order: a copy of the
    /// head of the remaining sequence, or nothing once the scope is
    /// exhausted.
    pub fn pull(&mut self) -> (r: Option<Token>)
        requires
            old(self)@.wf(),
            cursor_ok(old(self)@),
        ensures
            final(self)@.wf(),
            cursor_ok(final(self)@),
            match r {
                Some(t) => remaining(old(self)@).len() > 0 && old(self)@.tok(
                    remaining(old(self)@)[0],
                ) == Some(t@) && final(self)@ == (StackView {
                    position: remaining(old(self)@)[0],
                    ..old(self)@
                }) && remaining(final(self)@) == remaining(old(self)@).skip(1),
                None => remaining(old(self)@).len() == 0 && final(self)@ == old(self)@,
            },
    {
        match self.get_next_position() {
            Some(pos) => {
                proof {
                    assert(toks_view(self.tokens@)[pos as int] == (match self.tokens@[pos as int] {
                        Some(t) => Some(t@),
                        None => None,
                    }));
                }
                match &self.tokens[pos] {
                    Some(t) => Some(t.clone()),
                    None => {
                        proof {
                            assert(false);
                        }
                        None
                    },
                }
            },
            None => None,
        }
    }
}


/// The markup of an attribute mapping: one ` key="value"` for each pair,
/// in mapping order.
pub open spec fn attrs_markup(attrs: Seq<(Seq<char>, Seq<char>)>) -> Seq<char>
    decreases attrs.len(),
{
    if attrs.len() == 0 {
        Seq::empty()
    } else {
        attrs_markup(attrs.drop_last()) + seq![' '] + attrs.last().0 + seq!['=', '"']
            + attrs.last().1 + seq!['"']
    }
}

/// The markup of the leftover opening-tag text: nothing, or a space and
/// the text.
pub open spec fn extra_markup(extra: Seq<char>) -> Seq<char> {
    if extra.len() == 0 {
        Seq::empty()
    } else {
        seq![' '] + extra
    }
}

/// The freshly generated opening tag of a node.
pub open spec fn open_markup(t: TokenView) -> Seq<char> {
    seq!['<'] + t.tag + attrs_markup(t.attrs) + extra_markup(t.attr_extra) + seq!['>']
}

/// The freshly generated self-closed tag of a node.
pub open spec fn selfclose_markup(t: TokenView) -> Seq<char> {
    seq!['<'] + t.tag + attrs_markup(t.attrs) + extra_markup(t.attr_extra) + seq!['/', '>']
}

/// The freshly generated closing tag of a node.
pub open spec fn close_markup(t: TokenView) -> Seq<char> {
    seq!['<', '/'] + t.tag + seq!['>']
}

/// What one piece of the buffer renders to: text as itself; an opening
/// placeholder as the node's literal comment text, generated opening tag
/// or self-closed tag; a closing placeholder as the node's closing tag; a
/// placeholder whose node is absent renders to nothing.
pub open spec fn seg_render(sv: StackView, seg: SegView) -> Seq<char> {
    match seg {
        SegView::Text(t) => t,
        SegView::Open(id, _) => match sv.tok(id) {
            None => Seq::empty(),
            Some(t) => if t.tag == seq!['!'] {
                t.contents
            } else if t.is_closed {
                open_markup(t)
            } else {
                selfclose_markup(t)
            },
        },
        SegView::Close(id, _) => match sv.tok(id) {
            None => Seq::empty(),
            Some(t) => close_markup(t),
        },
    }
}

/// The rendering of the buffer pieces in `[from, to)`, in order.
pub open spec fn render_range(sv: StackView, from: int, to: int) -> Seq<char>
    decreases to - from,
{
    if from >= to || from < 0 || to > sv.code.len() {
        Seq::empty()
    } else {
        seg_render(sv, sv.code[from]) + render_range(sv, from + 1, to)
    }
}

/// The rendering of the whole document.
pub open spec fn spec_render(sv: StackView) -> Seq<char> {
    render_range(sv, 0, sv.code.len() as int)
}

/// The first opening placeholder of `id` in the buffer, from `k` on.
pub open spec fn find_open_seg(code: Seq<SegView>, id: usize, k: int) -> Option<int>
    decreases code.len() - k,
{
    if k < 0 || k >= code.len() {
        None
    } else if code[k] == SegView::Open(id, code[k]->Open_1) {
        Some(k)
    } else {
        find_open_seg(code, id, k + 1)
    }
}

/// The first closing placeholder of `id` in the buffer, from `k` on.
pub open spec fn find_close_seg(code: Seq<SegView>, id: usize, k: int) -> Option<int>
    decreases code.len() - k,
{
    if k < 0 || k >= code.len() {
        None
    } else if code[k] == SegView::Close(id, code[k]->Close_1) {
        Some(k)
    } else {
        find_close_seg(code, id, k + 1)
    }
}

/// The placeholder pair of a node: its opening placeholder and the first
/// closing placeholder after it, if both stand in the buffer.
pub open spec fn seg_pair(sv: StackView, id: usize) -> Option<(int, int)> {
    match find_open_seg(sv.code, id, 0) {
        None => None,
        Some(k1) => match find_close_seg(sv.code, id, k1 + 1) {
            None => None,
            Some(k2) => Some((k1, k2)),
        },
    }
}

/// What rendering one node's slice yields: the whole document for id
/// `0`; the rendering between the node's placeholder pair; nothing when
/// the pair is absent.
pub open spec fn spec_render_tag(sv: StackView, id: usize) -> Seq<char> {
    if id == 0 {
        spec_render(sv)
    } else {
        match seg_pair(sv, id) {
            Some(pair) => render_range(sv, pair.0 + 1, pair.1),
            None => Seq::empty(),
        }
    }
}

/// The buffer after replacing a node's recorded slice: everything
/// strictly between its placeholder pair becomes the one text piece
/// `text`; a store without the pair is unchanged.
pub open spec fn spec_set_contents(sv: StackView, id: usize, text: Seq<char>) -> Seq<SegView> {
    match seg_pair(sv, id) {
        Some(pair) => sv.code.take(pair.0 + 1) + seq![SegView::Text(text)] + sv.code.skip(pair.1),
        None => sv.code,
    }
}


/// Splitting off the last piece splits its rendering.
proof fn lemma_render_range_snoc(sv: StackView, a: int, b: int)
    requires
        0 <= a <= b < sv.code.len(),
    ensures
        render_range(sv, a, b + 1) == render_range(sv, a, b) + seg_render(sv, sv.code[b]),
    decreases b - a,
{
    if a == b {
        assert(render_range(sv, b + 1, b + 1) =~= Seq::<char>::empty());
        assert(render_range(sv, a, b) =~= Seq::<char>::empty());
        assert(render_range(sv, a, b + 1) =~= seg_render(sv, sv.code[b]) + Seq::<char>::empty());
        assert(render_range(sv, a, b) + seg_render(sv, sv.code[b]) =~= seg_render(
            sv,
            sv.code[b],
        ));
    } else {
        lemma_render_range_snoc(sv, a + 1, b);
        assert(render_range(sv, a, b + 1) =~= render_range(sv, a, b) + seg_render(
            sv,
            sv.code[b],
        ));
    }
}

/// Appending a piece appends its mathematical value.
proof fn lemma_segs_view_push(s: Seq<Segment>, g: Segment)
    ensures
        segs_view(s.push(g)) =~= segs_view(s).push(g@),
{
    assert forall|t: int| 0 <= t < s.len() + 1 implies #[trigger] segs_view(s.push(g))[t]
        == segs_view(s).push(g@)[t] by {
        if t < s.len() {
            assert(s.push(g)[t] == s[t]);
        } else {
            assert(s.push(g)[t] == g);
        }
    }
}

/// Removing a piece removes its mathematical value.
proof fn lemma_segs_view_remove(s: Seq<Segment>, i: int)
    requires
        0 <= i < s.len(),
    ensures
        segs_view(s.remove(i)) =~= segs_view(s).remove(i),
{
    s.remove_ensures(i);
    segs_view(s).remove_ensures(i);
    assert forall|t: int| 0 <= t < s.len() - 1 implies #[trigger] segs_view(s.remove(i))[t]
        == segs_view(s).remove(i)[t] by {
        if t < i {
            assert(s.remove(i)[t] == s[t]);
        } else {
            assert(s.remove(i)[t] == s[t + 1]);
        }
    }
}

/// Inserting a piece inserts its mathematical value.
proof fn lemma_segs_view_insert(s: Seq<Segment>, i: int, g: Segment)
    requires
        0 <= i <= s.len(),
    ensures
        segs_view(s.insert(i, g)) =~= segs_view(s).insert(i, g@),
{
    s.insert_ensures(i, g);
    segs_view(s).insert_ensures(i, g@);
    assert forall|t: int| 0 <= t < s.len() + 1 implies #[trigger] segs_view(s.insert(i, g))[t]
        == segs_view(s).insert(i, g@)[t] by {
        if t < i {
            assert(s.insert(i, g)[t] == s[t]);
        } else if t == i {
            assert(s.insert(i, g)[t] == g);
        } else {
            assert(s.insert(i, g)[t] == s[t - 1]);
        }
    }
}

/// Whether the node is a comment: its tag is the sentinel `!`.
fn tag_is_bang(t: &Token) -> (r: bool)
    ensures
        r == (t@.tag == seq!['!']),
{
    let tc = t.tag_chars();
    let r = tc.len() == 1 && tc[0] == '!';
    proof {
        if r {
            assert(t@.tag =~= seq!['!']);
        }
    }
    r
}

/// Appends a node's generated opening tag, self-closed when asked.
fn append_open_markup(out: &mut Vec<char>, t: &Token, with_slash: bool)
    ensures
        final(out)@ == old(out)@ + if with_slash {
            selfclose_markup(t@)
        } else {
            open_markup(t@)
        },
{
    out.push('<');
    crate::text::append_chars(out, t.tag_chars());
    let attrs = t.attr_pairs();
    let ghost base = old(out)@ + seq!['<'] + t@.tag;
    proof {
        assert(out@ =~= base + attrs_markup(t@.attrs.take(0)));
    }
    let mut i: usize = 0;
    while i < attrs.len()
        invariant
            i <= attrs@.len(),
            crate::text::pairs_view(attrs@) == t@.attrs,
            out@ == base + attrs_markup(t@.attrs.take(i as int)),
        decreases attrs@.len() - i,
    {
        out.push(' ');
        crate::text::append_chars(out, &attrs[i].0);
        out.push('=');
        out.push('"');
        crate::text::append_chars(out, &attrs[i].1);
        out.push('"');
        i = i + 1;
        proof {
            assert(t@.attrs.take(i as int).drop_last() =~= t@.attrs.take(i as int - 1));
            assert(t@.attrs.take(i as int).last() == t@.attrs[i as int - 1]);
            assert(t@.attrs[i as int - 1].0 == attrs@[i as int - 1].0@);
            assert(t@.attrs[i as int - 1].1 == attrs@[i as int - 1].1@);
            assert(out@ =~= base + attrs_markup(t@.attrs.take(i as int)));
        }
    }
    proof {
        assert(t@.attrs.take(t@.attrs.len() as int) =~= t@.attrs);
    }
    let extra = t.attr_extra_chars();
    if extra.len() > 0 {
        out.push(' ');
        crate::text::append_chars(out, extra);
    }
    if with_slash {
        out.push('/');
    }
    out.push('>');
    proof {
        if with_slash {
            assert(out@ =~= old(out)@ + selfclose_markup(t@));
        } else {
            assert(out@ =~= old(out)@ + open_markup(t@));
        }
    }
}

/// Appends a node's generated closing tag.
fn append_close_markup(out: &mut Vec<char>, t: &Token)
    ensures
        final(out)@ == old(out)@ + close_markup(t@),
{
    out.push('<');
    out.push('/');
    crate::text::append_chars(out, t.tag_chars());
    out.push('>');
    proof {
        assert(out@ =~= old(out)@ + close_markup(t@));
    }
}

impl Stack {
    /// Renders the buffer pieces in `[from, to)`.
    fn render_slice(&self, from: usize, to: usize) -> (r: Vec<char>)
        requires
            from <= to <= self@.code.len(),
        ensures
            r@ == render_range(self@, from as int, to as int),
    {
        let ghost sv = self@;
        let mut out: Vec<char> = Vec::new();
        let mut k: usize = from;
        proof {
            assert(render_range(sv, from as int, from as int) =~= Seq::<char>::empty());
            assert(out@ =~= render_range(sv, from as int, from as int));
        }
        while k < to
            invariant
                from <= k <= to <= sv.code.len(),
                sv == self@,
                out@ == render_range(sv, from as int, k as int),
            decreases to - k,
        {
            proof {
                assert(segs_view(self.code@)[k as int] == self.code@[k as int]@);
            }
            match &self.code[k] {
                Segment::Text(t) => {
                    crate::text::append_chars(&mut out, t);
                },
                Segment::Open(id, _) => {
                    if *id < self.tokens.len() {
                        proof {
                            assert(toks_view(self.tokens@)[*id as int] == (
                            match self.tokens@[*id as int] {
                                Some(t) => Some(t@),
                                None => None,
                            }));
                        }
                        match &self.tokens[*id] {
                            Some(t) => {
                                if tag_is_bang(t) {
                                    crate::text::append_chars(&mut out, t.contents_chars());
                                } else if t.is_closed() {
                                    append_open_markup(&mut out, t, false);
                                } else {
                                    append_open_markup(&mut out, t, true);
                                }
                            },
                            None => {},
                        }
                    }
                },
                Segment::Close(id, _) => {
                    if *id < self.tokens.len() {
                        proof {
                            assert(toks_view(self.tokens@)[*id as int] == (
                            match self.tokens@[*id as int] {
                                Some(t) => Some(t@),
                                None => None,
                            }));
                        }
                        match &self.tokens[*id] {
                            Some(t) => {
                                append_close_markup(&mut out, t);
                            },
                            None => {},
                        }
                    }
                },
            }
            proof {
                lemma_render_range_snoc(sv, from as int, k as int);
                assert(out@ =~= render_range(sv, from as int, k as int + 1));
            }
            k = k + 1;
        }
        out
    }

    /// The index of the opening placeholder of `id`, if it stands in the
    /// buffer.
    fn find_open_index(&self, id: usize) -> (r: Option<usize>)
        ensures
            match r {
                Some(k) => find_open_seg(self@.code, id, 0) == Some(k as int) && k
                    < self@.code.len() && k < usize::MAX,
                None => find_open_seg(self@.code, id, 0) is None,
            },
    {
        let mut k: usize = 0;
        while k < self.code.len()
            invariant
                k <= self@.code.len(),
                find_open_seg(self@.code, id, 0) == find_open_seg(self@.code, id, k as int),
            decreases self@.code.len() - k,
        {
            proof {
                assert(segs_view(self.code@)[k as int] == self.code@[k as int]@);
            }
            let hit: bool = match &self.code[k] {
                Segment::Open(oid, _) => *oid == id,
                _ => false,
            };
            if hit {
                return Some(k);
            }
            k = k + 1;
        }
        None
    }

    /// The index of the closing placeholder of `id` at or after `from`,
    /// if it stands in the buffer.
    fn find_close_index(&self, id: usize, from: usize) -> (r: Option<usize>)
        ensures
            match r {
                Some(k) => find_close_seg(self@.code, id, from as int) == Some(k as int) && from
                    <= k < self@.code.len() && k < usize::MAX,
                None => find_close_seg(self@.code, id, from as int) is None,
            },
    {
        let mut k: usize = from;
        while k < self.code.len()
            invariant
                from <= k,
                k <= self@.code.len() || (k == from && k >= self@.code.len()),
                find_close_seg(self@.code, id, from as int) == find_close_seg(
                    self@.code,
                    id,
                    k as int,
                ),
            decreases self@.code.len() - k,
        {
            proof {
                assert(segs_view(self.code@)[k as int] == self.code@[k as int]@);
            }
            let hit: bool = match &self.code[k] {
                Segment::Close(cid, _) => *cid == id,
                _ => false,
            };
            if hit {
                return Some(k);
            }
            k = k + 1;
        }
        None
    }

    /// The node's placeholder pair as buffer indexes, if both stand in
    /// the buffer.
    fn content_pair(&self, token_id: usize) -> (r: Option<(usize, usize)>)
        ensures
            match r {
                Some(pair) => seg_pair(self@, token_id) == Some((pair.0 as int, pair.1 as int))
                    && pair.0 + 1 <= pair.1 < self@.code.len() && pair.0 < usize::MAX && pair.1
                    < usize::MAX,
                None => seg_pair(self@, token_id) is None,
            },
    {
        match self.find_open_index(token_id) {
            None => None,
            Some(k1) => match self.find_close_index(token_id, k1 + 1) {
                None => None,
                Some(k2) => Some((k1, k2)),
            },
        }
    }

    /// Renders one node's recorded slice: the whole document for id `0`,
    /// the text between the node's placeholder pair otherwise, with every
    /// placeholder found there replaced by its node's real markup; empty
    /// when the pair is absent.
    pub fn render_tag(&mut self, token_id: &usize) -> (r: String)
        ensures
            *final(self) == *old(self),
            r@ == spec_render_tag(old(self)@, *token_id),
    {
        if *token_id == 0 {
            let n: usize = self.code.len();
            let chars = self.render_slice(0, n);
            return crate::text::chars_to_string(&chars);
        }
        match self.find_open_index(*token_id) {
            None => {
                let r = String::new();
                proof {
                    assert(r@ =~= spec_render_tag(self@, *token_id));
                }
                r
            },
            Some(k1) => {
                match self.find_close_index(*token_id, k1 + 1) {
                    None => {
                        let r = String::new();
                        proof {
                            assert(r@ =~= spec_render_tag(self@, *token_id));
                        }
                        r
                    },
                    Some(k2) => {
                        let chars = self.render_slice(k1 + 1, k2);
                        crate::text::chars_to_string(&chars)
                    },
                }
            },
        }
    }

    /// Renders the whole document: every text piece as it stands, every
    /// placeholder replaced by its node's current markup.
    pub fn render(&mut self) -> (r: String)
        ensures
            *final(self) == *old(self),
            r@ == spec_render(old(self)@),
    {
        self.render_tag(&0)
    }

    /// The rendered text between a node's placeholder pair, or nothing
    /// when no pair stands in the buffer.
    pub fn get_contents(&mut self, token_id: &usize) -> (r: Option<String>)
        ensures
            *final(self) == *old(self),
            match r {
                Some(text) => seg_pair(old(self)@, *token_id) is Some && text@ == render_range(
                    old(self)@,
                    seg_pair(old(self)@, *token_id).unwrap().0 + 1,
                    seg_pair(old(self)@, *token_id).unwrap().1,
                ),
                None => seg_pair(old(self)@, *token_id) is None,
            },
    {
        match self.find_open_index(*token_id) {
            None => None,
            Some(k1) => match self.find_close_index(*token_id, k1 + 1) {
                None => None,
                Some(k2) => {
                    let chars = self.render_slice(k1 + 1, k2);
                    Some(crate::text::chars_to_string(&chars))
                },
            },
        }
    }

    /// Replaces the text between a node's placeholder pair with the
    /// given contents; a node without a pair is left untouched.
    pub fn set_contents(&mut self, token_id: &usize, new_contents: &str)
        requires
            old(self)@.wf(),
        ensures
            final(self)@.wf(),
            final(self)@ == (StackView {
                code: spec_set_contents(old(self)@, *token_id, new_contents@),
                ..old(self)@
            }),
    {
        let ghost pre = self@;
        let pair = match self.content_pair(*token_id) {
            None => {
                proof {
                    assert(self@ =~= (StackView {
                        code: spec_set_contents(pre, *token_id, new_contents@),
                        ..pre
                    }));
                }
                return ;
            },
            Some(pair) => pair,
        };
        let k1: usize = pair.0;
        let k2: usize = pair.1;
        // Remove everything strictly between the pair, then put the new
        // text there.
        let mut j: usize = 0;
        let gap_exec: usize = k2 - k1 - 1;
        let ghost gap = gap_exec as int;
        while j < gap_exec
            invariant
                pre.wf(),
                j <= gap,
                gap == gap_exec,
                gap == k2 - k1 - 1,
                k1 < usize::MAX,
                k1 + 1 <= k2 < pre.code.len(),
                self@.code.len() == pre.code.len() - j,
                self@ == (StackView {
                    code: pre.code.take(k1 + 1) + pre.code.skip(k1 + 1 + j),
                    ..pre
                }),
            decreases gap - j,
        {
            let ghost mid = self.code@;
            self.code.remove(k1 + 1);
            proof {
                lemma_segs_view_remove(mid, k1 as int + 1);
                assert(segs_view(self.code@) =~= (pre.code.take(k1 + 1) + pre.code.skip(
                    k1 + 1 + j,
                )).remove(k1 as int + 1));
                assert((pre.code.take(k1 + 1) + pre.code.skip(k1 + 1 + j)).remove(k1 as int + 1)
                    =~= pre.code.take(k1 + 1) + pre.code.skip(k1 + 2 + j));
                assert(self@ =~= (StackView {
                    code: pre.code.take(k1 + 1) + pre.code.skip(k1 + 1 + (j + 1)),
                    ..pre
                }));
            }
            j = j + 1;
        }
        let text = str_to_chars(new_contents);
        let ghost mid2 = self.code@;
        let ghost textv = text@;
        self.code.insert(k1 + 1, Segment::Text(text));
        proof {
            let inserted = self.code@[k1 as int + 1];
            lemma_segs_view_insert(mid2, k1 as int + 1, inserted);
            assert(mid2.insert(k1 as int + 1, inserted) =~= self.code@);
            assert(inserted@ == SegView::Text(textv));
            assert((pre.code.take(k1 + 1) + pre.code.skip(k1 + 1 + gap)).insert(
                k1 as int + 1,
                SegView::Text(textv),
            ) =~= pre.code.take(k1 + 1) + seq![SegView::Text(textv)] + pre.code.skip(k2 as int));
            assert(self@ =~= (StackView {
                code: spec_set_contents(pre, *token_id, new_contents@),
                ..pre
            }));
        }
    }
}


/// Concatenation of sources splits over buffer concatenation.
proof fn lemma_concat_srcs_add(a: Seq<SegView>, b: Seq<SegView>)
    ensures
        concat_srcs(a + b) == concat_srcs(a) + concat_srcs(b),
    decreases a.len(),
{
    if a.len() == 0 {
        assert(a + b =~= b);
        assert(concat_srcs(a) + concat_srcs(b) =~= concat_srcs(b));
    } else {
        lemma_concat_srcs_add(a.drop_first(), b);
        assert((a + b).drop_first() =~= a.drop_first() + b);
        assert((a + b)[0] == a[0]);
        assert(concat_srcs(a) + concat_srcs(b) =~= a[0].src() + (concat_srcs(a.drop_first())
            + concat_srcs(b)));
    }
}

/// What a found text occurrence means: the piece is text and holds the
/// pattern at the found offset.
proof fn lemma_seg_text_find_some(code: Seq<SegView>, pat: Seq<char>, k0: int)
    requires
        0 <= k0,
    ensures
        match seg_text_find(code, pat, k0) {
            Some(hit) => k0 <= hit.0 < code.len() && code[hit.0] is Text && find_sub_from(
                code[hit.0]->Text_0,
                pat,
                0,
            ) == Some(hit.1),
            None => true,
        },
    decreases code.len() - k0,
{
    if k0 >= code.len() {
    } else {
        match code[k0] {
            SegView::Text(_) => {
                if find_sub_from(code[k0]->Text_0, pat, 0) is Some {
                } else {
                    lemma_seg_text_find_some(code, pat, k0 + 1);
                }
            },
            _ => {
                lemma_seg_text_find_some(code, pat, k0 + 1);
            },
        }
    }
}

/// Replacing text by a placeholder that records it leaves the buffer's
/// source unchanged.
#[verifier::rlimit(60)]
proof fn lemma_mark_preserves_source(code: Seq<SegView>, pat: Seq<char>, seg: SegView)
    requires
        seg.src() == pat,
    ensures
        concat_srcs(spec_mark(code, pat, seg)) == concat_srcs(code),
{
    match seg_text_find(code, pat, 0) {
        None => {},
        Some(hit) => {
            lemma_seg_text_find_some(code, pat, 0);
            let k = hit.0;
            let j = hit.1;
            let t = code[k]->Text_0;
            crate::text::lemma_find_sub_from_some(t, pat, 0);
            let mid = seq![
                SegView::Text(t.subrange(0, j)),
                seg,
                SegView::Text(t.subrange(j + pat.len(), t.len() as int)),
            ];
            lemma_concat_srcs_add(code.take(k) + mid, code.skip(k + 1));
            lemma_concat_srcs_add(code.take(k), mid);
            lemma_concat_srcs_add(code.take(k), code.skip(k));
            assert(code.take(k) + code.skip(k) =~= code);
            let m1 = mid.drop_first();
            let m2 = m1.drop_first();
            let m3 = m2.drop_first();
            assert(m1 =~= seq![seg, SegView::Text(t.subrange(j + pat.len(), t.len() as int))]);
            assert(m2 =~= seq![SegView::Text(t.subrange(j + pat.len(), t.len() as int))]);
            assert(m3 =~= Seq::<SegView>::empty());
            assert(concat_srcs(m3) == Seq::<char>::empty());
            assert(concat_srcs(m2) == t.subrange(j + pat.len(), t.len() as int) + Seq::<
                char,
            >::empty());
            assert(concat_srcs(m1) == pat + concat_srcs(m2));
            assert(concat_srcs(mid) == t.subrange(0, j) + concat_srcs(m1));
            assert(concat_srcs(mid) =~= t.subrange(0, j) + pat + t.subrange(
                j + pat.len(),
                t.len() as int,
            ));
            assert(t.subrange(0, j) + pat + t.subrange(j + pat.len(), t.len() as int) =~= t);
            assert(concat_srcs(code.skip(k)) =~= t + concat_srcs(code.skip(k + 1))) by {
                assert(code.skip(k)[0] == code[k]);
                assert(code.skip(k).drop_first() =~= code.skip(k + 1));
            }
            assert(concat_srcs(spec_mark(code, pat, seg)) =~= concat_srcs(code));
        },
    }
}

/// Pushing a tag leaves the source text of the buffer unchanged.
pub proof fn lemma_push_source(
    pre: StackView,
    tag: Seq<char>,
    attr: Seq<char>,
    single: bool,
    text: Seq<char>,
)
    ensures
        spec_push(pre, tag, attr, single, text).source() == pre.source(),
{
    let id = pre.tokens.len() as usize;
    lemma_mark_preserves_source(pre.code, text, SegView::Open(id, text));
}

/// Closing a tag leaves the source text of the buffer unchanged.
pub proof fn lemma_close_source(pre: StackView, tag: Seq<char>, text: Seq<char>)
    ensures
        spec_close(pre, tag, text).source() == pre.source(),
{
    match find_open_from(pre.tokens, tag, pre.tokens.len() - 1) {
        None => {},
        Some(i) => {
            let t = pre.tokens[i].unwrap();
            lemma_mark_preserves_source(pre.code, text, SegView::Close(t.id, text));
        },
    }
}

/// One buffer piece renders back to exactly the source text it came
/// from: true of literal text always, and of a placeholder whose node's
/// current markup equals its original span.
pub open spec fn seg_faithful(sv: StackView, seg: SegView) -> bool {
    seg_render(sv, seg) == seg.src()
}

/// Round-trip: a store in which every buffer piece renders back to its
/// own source text renders to exactly the source of the whole document.
/// After parsing, each placeholder's source is the original tag or
/// comment span, so rendering an unmutated store whose generated markup
/// matches those spans reproduces the input text byte for byte.
pub proof fn lemma_render_source(sv: StackView)
    requires
        forall|k: int| 0 <= k < sv.code.len() ==> #[trigger] seg_faithful(sv, sv.code[k]),
    ensures
        spec_render(sv) == sv.source(),
{
    lemma_render_source_from(sv, 0);
    assert(sv.code.skip(0) =~= sv.code);
}

/// The tail form of `lemma_render_source`.
proof fn lemma_render_source_from(sv: StackView, i: int)
    requires
        0 <= i <= sv.code.len(),
        forall|k: int| 0 <= k < sv.code.len() ==> #[trigger] seg_faithful(sv, sv.code[k]),
    ensures
        render_range(sv, i, sv.code.len() as int) == concat_srcs(sv.code.skip(i)),
    decreases sv.code.len() - i,
{
    if i == sv.code.len() {
        assert(sv.code.skip(i) =~= Seq::<SegView>::empty());
    } else {
        lemma_render_source_from(sv, i + 1);
        assert(seg_faithful(sv, sv.code[i]));
        assert(sv.code.skip(i)[0] == sv.code[i]);
        assert(sv.code.skip(i).drop_first() =~= sv.code.skip(i + 1));
    }
}


/// Rendering reads only the buffer and the arena: stores that agree on
/// those render every slice alike, wherever their cursors stand.
pub proof fn lemma_render_range_congruent(sv1: StackView, sv2: StackView, from: int, to: int)
    requires
        sv1.code == sv2.code,
        sv1.tokens == sv2.tokens,
    ensures
        render_range(sv1, from, to) == render_range(sv2, from, to),
    decreases to - from,
{
    if from >= to || from < 0 || to > sv1.code.len() {
    } else {
        lemma_render_range_congruent(sv1, sv2, from + 1, to);
        assert(seg_render(sv1, sv1.code[from]) == seg_render(sv2, sv2.code[from]));
    }
}

/// The slice a node renders to is likewise a function of the buffer and
/// the arena alone.
pub proof fn lemma_render_tag_congruent(sv1: StackView, sv2: StackView, id: usize)
    requires
        sv1.code == sv2.code,
        sv1.tokens == sv2.tokens,
    ensures
        spec_render_tag(sv1, id) == spec_render_tag(sv2, id),
{
    lemma_render_range_congruent(sv1, sv2, 0, sv1.code.len() as int);
    match seg_pair(sv1, id) {
        Some(pair) => {
            lemma_render_range_congruent(sv1, sv2, pair.0 + 1, pair.1);
        },
        None => {},
    }
}


/// Tags rendered compactly by the pretty rebuild: no surrounding
/// indentation or line break.
pub open spec fn is_inline_tag(tag: Seq<char>) -> bool {
    ||| tag == seq!['i']
    ||| tag == seq!['b']
    ||| tag == seq!['a']
    ||| tag == seq!['c', 'e', 'n', 't', 'e', 'r']
    ||| tag == seq!['h', '1']
    ||| tag == seq!['h', '2']
    ||| tag == seq!['h', '3']
    ||| tag == seq!['h', '4']
    ||| tag == seq!['h', '5']
    ||| tag == seq!['h', '6']
    ||| tag == seq!['t', 'd']
    ||| tag == seq!['l', 'i']
}

/// `n` spaces.
pub open spec fn spaces(n: int) -> Seq<char>
    decreases n,
{
    if n <= 0 {
        Seq::empty()
    } else {
        spaces(n - 1) + seq![' ']
    }
}

/// The indentation in front of a block tag: four spaces per open block
/// ancestor, none under an inline ancestor or at top level.
pub open spec fn indent_of(stk: Seq<(usize, Seq<char>)>) -> Seq<char> {
    if stk.len() > 0 && !is_inline_tag(stk.last().1) {
        spaces(4 * stk.len() as int)
    } else {
        Seq::empty()
    }
}

/// What the pretty rebuild emits for one buffer piece, and the ancestor
/// stack afterwards: comments vanish, block open tags are indented and
/// newline-terminated and pushed, close tags pop their own entry.
pub open spec fn seg_rebuild(sv: StackView, seg: SegView, stk: Seq<(usize, Seq<char>)>) -> (
    Seq<char>,
    Seq<(usize, Seq<char>)>,
) {
    match seg {
        SegView::Text(t) => (t, stk),
        SegView::Open(id, _) => match sv.tok(id) {
            None => (Seq::empty(), stk),
            Some(t) => {
                if t.tag == seq!['!'] {
                    (Seq::empty(), stk)
                } else {
                    let markup = if t.is_closed {
                        open_markup(t)
                    } else {
                        selfclose_markup(t)
                    };
                    let suffix: Seq<char> = if is_inline_tag(t.tag) {
                        Seq::empty()
                    } else {
                        seq!['\n']
                    };
                    let stk2 = if t.is_closed && !is_inline_tag(t.tag) {
                        stk.push((id, t.tag))
                    } else {
                        stk
                    };
                    (indent_of(stk) + markup + suffix, stk2)
                }
            },
        },
        SegView::Close(id, _) => match sv.tok(id) {
            None => (Seq::empty(), stk),
            Some(t) => (
                close_markup(t),
                if stk.len() > 0 && stk.last().0 == id {
                    stk.drop_last()
                } else {
                    stk
                },
            ),
        },
    }
}

/// The pretty rebuild of the buffer from piece `i` on, under the given
/// ancestor stack.
pub open spec fn rebuild_from(sv: StackView, i: int, stk: Seq<(usize, Seq<char>)>) -> Seq<char>
    decreases sv.code.len() - i,
{
    if i < 0 || i >= sv.code.len() {
        Seq::empty()
    } else {
        let step = seg_rebuild(sv, sv.code[i], stk);
        step.0 + rebuild_from(sv, i + 1, step.1)
    }
}

/// Doubled line breaks collapsed once, left to right.
pub open spec fn collapse_nn(s: Seq<char>) -> Seq<char>
    decreases s.len(),
{
    match find_sub_from(s, seq!['\n', '\n'], 0) {
        None => s,
        Some(i) => if 0 <= i && i + 2 <= s.len() {
            s.take(i) + seq!['\n'] + collapse_nn(s.skip(i + 2))
        } else {
            s
        },
    }
}

/// What the pretty rebuild of the whole document yields.
pub open spec fn spec_rebuild(sv: StackView) -> Seq<char> {
    collapse_nn(rebuild_from(sv, 0, Seq::empty()))
}

/// The ancestor stack's mathematical value.
pub open spec fn stk_view(s: Seq<(usize, Vec<char>)>) -> Seq<(usize, Seq<char>)> {
    s.map_values(|p: (usize, Vec<char>)| (p.0, p.1@))
}

/// Whether the tag is rendered compactly, as `is_inline_tag`.
fn is_inline_exec(tag: &Vec<char>) -> (r: bool)
    ensures
        r == is_inline_tag(tag@),
{
    let names: Vec<Vec<char>> = vec![
        vec!['i'],
        vec!['b'],
        vec!['a'],
        vec!['c', 'e', 'n', 't', 'e', 'r'],
        vec!['h', '1'],
        vec!['h', '2'],
        vec!['h', '3'],
        vec!['h', '4'],
        vec!['h', '5'],
        vec!['h', '6'],
        vec!['t', 'd'],
        vec!['l', 'i'],
    ];
    let mut i: usize = 0;
    let mut found = false;
    while i < names.len()
        invariant
            i <= names@.len(),
            names@.len() == 12,
            names@[0]@ =~= seq!['i'],
            names@[1]@ =~= seq!['b'],
            names@[2]@ =~= seq!['a'],
            names@[3]@ =~= seq!['c', 'e', 'n', 't', 'e', 'r'],
            names@[4]@ =~= seq!['h', '1'],
            names@[5]@ =~= seq!['h', '2'],
            names@[6]@ =~= seq!['h', '3'],
            names@[7]@ =~= seq!['h', '4'],
            names@[8]@ =~= seq!['h', '5'],
            names@[9]@ =~= seq!['h', '6'],
            names@[10]@ =~= seq!['t', 'd'],
            names@[11]@ =~= seq!['l', 'i'],
            found == exists|k: int| 0 <= k < i && tag@ == names@[k]@,
        decreases names@.len() - i,
    {
        if crate::text::chars_eq(tag, &names[i]) {
            found = true;
        }
        proof {
            if tag@ == names@[i as int]@ {
                assert(exists|k: int| 0 <= k < i + 1 && tag@ == names@[k]@);
            }
        }
        i = i + 1;
    }
    proof {
        if found {
            let k = choose|k: int| 0 <= k < 12 && tag@ == names@[k]@;
            assert(is_inline_tag(tag@));
        }
        if is_inline_tag(tag@) {
            if tag@ == seq!['i'] {
                assert(tag@ == names@[0]@);
            } else if tag@ == seq!['b'] {
                assert(tag@ == names@[1]@);
            } else if tag@ == seq!['a'] {
                assert(tag@ == names@[2]@);
            } else if tag@ == seq!['c', 'e', 'n', 't', 'e', 'r'] {
                assert(tag@ == names@[3]@);
            } else if tag@ == seq!['h', '1'] {
                assert(tag@ == names@[4]@);
            } else if tag@ == seq!['h', '2'] {
                assert(tag@ == names@[5]@);
            } else if tag@ == seq!['h', '3'] {
                assert(tag@ == names@[6]@);
            } else if tag@ == seq!['h', '4'] {
                assert(tag@ == names@[7]@);
            } else if tag@ == seq!['h', '5'] {
                assert(tag@ == names@[8]@);
            } else if tag@ == seq!['h', '6'] {
                assert(tag@ == names@[9]@);
            } else if tag@ == seq!['t', 'd'] {
                assert(tag@ == names@[10]@);
            } else {
                assert(tag@ == names@[11]@);
            }
        }
    }
    found
}

/// Appends the indentation for the current ancestor stack.
fn append_indent(out: &mut Vec<char>, stk: &Vec<(usize, Vec<char>)>)
    ensures
        final(out)@ == old(out)@ + indent_of(stk_view(stk@)),
{
    let inline_top: bool = if stk.len() > 0 {
        is_inline_exec(&stk[stk.len() - 1].1)
    } else {
        false
    };
    proof {
        if stk@.len() > 0 {
            assert(stk_view(stk@).last() == (stk@[stk@.len() - 1].0, stk@[stk@.len() - 1].1@));
        }
    }
    if stk.len() > 0 && !inline_top {
        let mut j: usize = 0;
        while j < stk.len()
            invariant
                j <= stk@.len(),
                out@ == old(out)@ + spaces(4 * j),
            decreases stk@.len() - j,
        {
            out.push(' ');
            out.push(' ');
            out.push(' ');
            out.push(' ');
            j = j + 1;
            proof {
                assert(spaces(4 * j) =~= spaces(4 * j - 1) + seq![' ']);
                assert(spaces(4 * j - 1) =~= spaces(4 * j - 2) + seq![' ']);
                assert(spaces(4 * j - 2) =~= spaces(4 * j - 3) + seq![' ']);
                assert(spaces(4 * j - 3) =~= spaces(4 * (j - 1)) + seq![' ']);
                assert(out@ =~= old(out)@ + spaces(4 * j));
            }
        }
        proof {
            assert(stk_view(stk@).len() == stk@.len());
            assert(out@ =~= old(out)@ + indent_of(stk_view(stk@)));
        }
    } else {
        proof {
            assert(out@ =~= old(out)@ + indent_of(stk_view(stk@)));
        }
    }
}

/// Doubled line breaks collapsed once, as `collapse_nn`.
fn collapse_exec(src: Vec<char>) -> (r: Vec<char>)
    ensures
        r@ == collapse_nn(src@),
{
    let nn: Vec<char> = vec!['\n', '\n'];
    proof {
        assert(nn@ =~= seq!['\n', '\n']);
    }
    let mut res: Vec<char> = Vec::new();
    let mut rest: Vec<char> = src;
    loop
        invariant_except_break
            res@ + collapse_nn(rest@) == collapse_nn(src@),
        invariant
            nn@ == seq!['\n', '\n'],
        ensures
            res@ == collapse_nn(src@),
        decreases rest@.len(),
    {
        match crate::text::find_sub(&rest, &nn, 0) {
            None => {
                proof {
                    assert(collapse_nn(rest@) == rest@);
                }
                crate::text::append_chars(&mut res, &rest);
                break ;
            },
            Some(i) => {
                proof {
                    crate::text::lemma_find_sub_from_some(rest@, nn@, 0);
                    assert(i + 2 <= rest.len());
                }
                let ghost old_rest = rest@;
                let head = copy_range(&rest, 0, i);
                crate::text::append_chars(&mut res, &head);
                res.push('\n');
                let tail = copy_range(&rest, i + 2, rest.len());
                rest = tail;
                proof {
                    assert(old_rest.take(i as int) =~= head@);
                    assert(old_rest.skip(i + 2) =~= rest@);
                    assert(collapse_nn(old_rest) == old_rest.take(i as int) + seq!['\n']
                        + collapse_nn(old_rest.skip(i + 2)));
                    assert(res@ + collapse_nn(rest@) =~= collapse_nn(src@));
                }
            },
        }
    }
    res
}

impl Stack {
    /// Rebuilds the document with indentation and line breaks: comments
    /// are stripped, block tags are indented four spaces per open block
    /// ancestor and newline-terminated, inline tags stay compact, and
    /// doubled blank lines are collapsed at the end.
    pub fn rebuild(&mut self) -> (r: String)
        ensures
            *final(self) == *old(self),
            r@ == spec_rebuild(old(self)@),
    {
        let ghost sv = self@;
        let mut out: Vec<char> = Vec::new();
        let mut stk: Vec<(usize, Vec<char>)> = Vec::new();
        let mut k: usize = 0;
        proof {
            assert(stk_view(stk@) =~= Seq::<(usize, Seq<char>)>::empty());
            assert(out@ + rebuild_from(sv, 0, stk_view(stk@)) =~= rebuild_from(
                sv,
                0,
                Seq::empty(),
            ));
        }
        while k < self.code.len()
            invariant
                k <= self@.code.len(),
                sv == self@,
                out@ + rebuild_from(sv, k as int, stk_view(stk@)) == rebuild_from(
                    sv,
                    0,
                    Seq::empty(),
                ),
            decreases self@.code.len() - k,
        {
            let ghost stk0 = stk_view(stk@);
            let ghost step = seg_rebuild(sv, sv.code[k as int], stk0);
            proof {
                assert(segs_view(self.code@)[k as int] == self.code@[k as int]@);
            }
            match &self.code[k] {
                Segment::Text(t) => {
                    crate::text::append_chars(&mut out, t);
                },
                Segment::Open(id, _) => {
                    if *id < self.tokens.len() {
                        proof {
                            assert(toks_view(self.tokens@)[*id as int] == (
                            match self.tokens@[*id as int] {
                                Some(t) => Some(t@),
                                None => None,
                            }));
                        }
                        let push_entry: Option<(usize, Vec<char>)> = match &self.tokens[*id] {
                            Some(t) => {
                                if tag_is_bang(t) {
                                    None
                                } else {
                                    let inline = is_inline_exec(t.tag_chars());
                                    append_indent(&mut out, &stk);
                                    if t.is_closed() {
                                        append_open_markup(&mut out, t, false);
                                    } else {
                                        append_open_markup(&mut out, t, true);
                                    }
                                    if !inline {
                                        out.push('\n');
                                    }
                                    if t.is_closed() && !inline {
                                        let tagc = copy_range(t.tag_chars(), 0, t.tag_chars().len());
                                        proof {
                                            assert(tagc@ =~= t@.tag);
                                        }
                                        Some((*id, tagc))
                                    } else {
                                        None
                                    }
                                }
                            },
                            None => None,
                        };
                        match push_entry {
                            Some(entry) => {
                                let ghost pre_stk = stk@;
                                let ghost ev = (entry.0, entry.1@);
                                stk.push(entry);
                                proof {
                                    let x = stk@.last();
                                    assert(stk@ =~= pre_stk.push(x));
                                    assert forall|w: int|
                                        0 <= w < pre_stk.len() + 1 implies #[trigger] stk_view(
                                        stk@,
                                    )[w] == stk_view(pre_stk).push(ev)[w] by {
                                        if w < pre_stk.len() {
                                            assert(stk@[w] == pre_stk[w]);
                                        } else {
                                            assert(stk@[w] == x);
                                        }
                                    }
                                    assert(stk_view(stk@) =~= stk_view(pre_stk).push(ev));
                                    assert(stk_view(stk@) =~= step.1);
                                }
                            },
                            None => {
                                proof {
                                    assert(stk_view(stk@) =~= step.1);
                                }
                            },
                        }
                    }
                },
                Segment::Close(id, _) => {
                    if *id < self.tokens.len() {
                        proof {
                            assert(toks_view(self.tokens@)[*id as int] == (
                            match self.tokens@[*id as int] {
                                Some(t) => Some(t@),
                                None => None,
                            }));
                        }
                        let present: bool = match &self.tokens[*id] {
                            Some(t) => {
                                append_close_markup(&mut out, t);
                                true
                            },
                            None => false,
                        };
                        let pop: bool = present && stk.len() > 0 && stk[stk.len() - 1].0 == *id;
                        proof {
                            if stk@.len() > 0 {
                                assert(stk_view(stk@).last() == (
                                    stk@[stk@.len() - 1].0,
                                    stk@[stk@.len() - 1].1@,
                                ));
                            }
                        }
                        if pop {
                            let ghost pre_stk = stk@;
                            proof {
                                assert(stk0 == stk_view(pre_stk));
                                assert(stk0.len() > 0);
                                assert(stk0.last().0 == *id);
                            }
                            stk.pop();
                            proof {
                                assert(stk@ =~= pre_stk.drop_last());
                                assert forall|w: int|
                                    0 <= w < pre_stk.len() - 1 implies #[trigger] stk_view(
                                    stk@,
                                )[w] == stk_view(pre_stk).drop_last()[w] by {
                                    assert(stk@[w] == pre_stk[w]);
                                }
                                assert(stk_view(stk@) =~= stk_view(pre_stk).drop_last());
                                assert(stk_view(stk@) =~= step.1);
                            }
                        } else {
                            proof {
                                assert(stk_view(stk@) =~= step.1);
                            }
                        }
                    }
                },
            }
            proof {
                assert(out@ =~= (out@ + rebuild_from(sv, k + 1, stk_view(stk@))).take(
                    out@.len() as int,
                ));
                assert(rebuild_from(sv, k as int, stk0) == step.0 + rebuild_from(
                    sv,
                    k + 1,
                    step.1,
                ));
                assert(out@ + rebuild_from(sv, k + 1, stk_view(stk@)) =~= rebuild_from(
                    sv,
                    0,
                    Seq::empty(),
                ));
            }
            k = k + 1;
        }
        proof {
            assert(rebuild_from(sv, sv.code.len() as int, stk_view(stk@)) =~= Seq::<
                char,
            >::empty());
            assert(out@ =~= rebuild_from(sv, 0, Seq::empty()));
        }
        let collapsed = collapse_exec(out);
        crate::text::chars_to_string(&collapsed)
    }
}


/// Whether the parent chain from `x` climbs to `root` without leaving
/// the arena and without passing through an excluded node.
pub open spec fn clean_to(t: TreeView, x: usize, root: usize, e: Seq<usize>) -> bool
    decreases x,
{
    if x == root {
        true
    } else if x == 0 || t.tok(x) is None {
        false
    } else if e.contains(x) {
        false
    } else {
        let q = t.tok(x).unwrap().parent_id;
        if q < x {
            clean_to(t, q, root, e)
        } else {
            false
        }
    }
}

/// Whether an extracted document keeps the node: a real node strictly
/// inside the root's subtree, not under any excluded node.
pub open spec fn keep_in_extract(t: TreeView, root: usize, e: Seq<usize>, x: usize) -> bool {
    x != root && t.tok(x) is Some && clean_to(t, x, root, e)
}

/// The kept node as stored in the extracted document: direct children of
/// the root are re-parented to the new document root.
pub open spec fn extract_token(t: TreeView, root: usize, x: usize) -> TokenView {
    let tok = t.tok(x).unwrap();
    TokenView {
        parent_id: if tok.parent_id == root {
            0
        } else {
            tok.parent_id
        },
        ..tok
    }
}

impl Stack {
    /// Whether the parent chain from `x` climbs cleanly to `root`, as
    /// `clean_to`.
    fn clean_to_exec(&self, x: usize, root: usize, excludes: &Vec<usize>) -> (r: bool)
        ensures
            r == clean_to(self@.tree(), x, root, excludes@),
    {
        let ghost t = self@.tree();
        let mut cur: usize = x;
        loop
            invariant
                clean_to(t, x as usize, root, excludes@) == clean_to(t, cur, root, excludes@),
                t == self@.tree(),
            decreases cur,
        {
            if cur == root {
                return true;
            }
            if cur == 0 || cur >= self.tokens.len() {
                return false;
            }
            proof {
                assert(toks_view(self.tokens@)[cur as int] == (match self.tokens@[cur as int] {
                    Some(tk) => Some(tk@),
                    None => None,
                }));
            }
            let q: usize = match &self.tokens[cur] {
                Some(tk) => tk.parent_id(),
                None => {
                    return false;
                },
            };
            if crate::text::contains_id(excludes, cur) {
                return false;
            }
            if q >= cur {
                return false;
            }
            cur = q;
        }
    }

    /// Extracts the subtree of one closed node as a document of its own:
    /// the buffer becomes the slice between the node's placeholder pair,
    /// the kept nodes are those inside the subtree and outside the
    /// excluded subtrees, and the root's direct children are re-parented
    /// to the new document root.  A node without a placeholder pair
    /// yields nothing.
    pub fn clone_from(&mut self, token_id: &usize, excludes: &Vec<usize>) -> (r: Option<Stack>)
        requires
            old(self)@.wf(),
        ensures
            *final(self) == *old(self),
            match r {
                Some(st) => seg_pair(old(self)@, *token_id) is Some && st@.wf() && st@.code == old(
                    self,
                )@.code.subrange(
                    seg_pair(old(self)@, *token_id).unwrap().0 + 1,
                    seg_pair(old(self)@, *token_id).unwrap().1,
                ) && st@.tokens.len() == old(self)@.tokens.len() && (forall|x: usize|
                    (x as int) < old(self)@.tokens.len() ==> #[trigger] st@.tok(x) == (
                    if keep_in_extract(old(self)@.tree(), *token_id, excludes@, x) {
                        Some(extract_token(old(self)@.tree(), *token_id, x))
                    } else {
                        None
                    })) && st@.position == 0 && st@.parent_position == 0 && st@.parent_id == 0
                    && st@.excludes == Seq::<usize>::empty(),
                None => seg_pair(old(self)@, *token_id) is None,
            },
    {
        let ghost sv = self@;
        let ghost t = sv.tree();
        let ghost e = excludes@;
        let root: usize = *token_id;
        let pair = match self.content_pair(root) {
            None => {
                return None;
            },
            Some(pair) => pair,
        };

        // The buffer slice between the pair, copied.
        let mut code2: Vec<Segment> = Vec::new();
        let mut k: usize = pair.0 + 1;
        proof {
            assert(segs_view(code2@) =~= sv.code.subrange(pair.0 + 1, pair.0 + 1));
        }
        while k < pair.1
            invariant
                sv == self@,
                pair.0 + 1 <= k <= pair.1 <= sv.code.len(),
                pair.1 < usize::MAX,
                segs_view(code2@) == sv.code.subrange(pair.0 + 1, k as int),
            decreases pair.1 - k,
        {
            proof {
                assert(segs_view(self.code@)[k as int] == self.code@[k as int]@);
            }
            let seg: Segment = match &self.code[k] {
                Segment::Text(txt) => Segment::Text(copy_range(txt, 0, txt.len())),
                Segment::Open(id, g) => Segment::Open(*id, Ghost(g@)),
                Segment::Close(id, g) => Segment::Close(*id, Ghost(g@)),
            };
            proof {
                assert(seg@ =~= sv.code[k as int]);
            }
            let ghost pre2 = code2@;
            let ghost k0 = k as int;
            code2.push(seg);
            k = k + 1;
            proof {
                let x = code2@.last();
                assert(code2@ =~= pre2.push(x));
                assert(x@ == sv.code[k0]);
                lemma_segs_view_push(pre2, x);
                assert(segs_view(pre2.push(x)) =~= segs_view(code2@));
                assert(sv.code.subrange(pair.0 + 1, k0).push(sv.code[k0]) =~= sv.code.subrange(
                    pair.0 + 1,
                    k0 + 1,
                ));
                assert(segs_view(code2@) =~= sv.code.subrange(pair.0 + 1, k as int));
            }
        }

        // The kept nodes, ids unchanged, direct children of the root
        // re-parented to the new document root.
        let n: usize = self.tokens.len();
        let mut tokens2: Vec<Option<Token>> = Vec::new();
        let mut children2: Vec<Vec<usize>> = Vec::new();
        let mut x: usize = 0;
        while x < n
            invariant
                sv == self@,
                t == sv.tree(),
                e == excludes@,
                sv.wf(),
                x <= n,
                n == sv.tokens.len(),
                tokens2@.len() == x,
                children2@.len() == x,
                forall|y: usize|
                    (y as int) < x ==> #[trigger] toks_view(tokens2@)[y as int] == (
                    if keep_in_extract(t, root, e, y) {
                        Some(extract_token(t, root, y))
                    } else {
                        None
                    }),
                forall|p: int| 0 <= p < x ==> (#[trigger] kids_view(children2@)[p]).len() == 0,
            decreases n - x,
        {
            proof {
                assert(toks_view(self.tokens@)[x as int] == (match self.tokens@[x as int] {
                    Some(tk) => Some(tk@),
                    None => None,
                }));
            }
            let keep: bool = if x == root {
                false
            } else {
                let has: bool = match &self.tokens[x] {
                    Some(_) => true,
                    None => false,
                };
                has && self.clean_to_exec(x, root, excludes)
            };
            let entry: Option<Token> = if keep {
                match &self.tokens[x] {
                    Some(tk) => {
                        let par = tk.parent_id();
                        let new_par: usize = if par == root {
                            0
                        } else {
                            par
                        };
                        Some(tk.reparented(new_par))
                    },
                    None => None,
                }
            } else {
                None
            };
            let ghost ev = match &entry {
                Some(tk) => Some(tk@),
                None => None,
            };
            let ghost pre_t2 = tokens2@;
            let ghost pre_c2 = children2@;
            tokens2.push(entry);
            children2.push(Vec::new());
            x = x + 1;
            proof {
                lemma_toks_view_push(pre_t2, tokens2@.last());
                lemma_kids_view_push(pre_c2, children2@.last());
                assert(toks_view(tokens2@)[x - 1] == ev);
                assert forall|y: usize|
                    (y as int) < x implies #[trigger] toks_view(tokens2@)[y as int] == (
                    if keep_in_extract(t, root, e, y) {
                        Some(extract_token(t, root, y))
                    } else {
                        None
                    }) by {
                    if (y as int) < x - 1 {
                        assert(toks_view(tokens2@)[y as int] == toks_view(pre_t2)[y as int]);
                    }
                }
                assert forall|p: int|
                    0 <= p < x implies (#[trigger] kids_view(children2@)[p]).len() == 0 by {
                    if p < x - 1 {
                        assert(kids_view(children2@)[p] == kids_view(pre_c2)[p]);
                    }
                }
            }
        }

        // The adjacency of the kept nodes, in increasing id order.
        let ghost t2 = toks_view(tokens2@);
        let mut y: usize = 1;
        while y < n
            invariant
                sv == self@,
                t == sv.tree(),
                e == excludes@,
                sv.wf(),
                1 <= y <= n,
                n == sv.tokens.len(),
                n >= 1,
                tokens2@.len() == n,
                children2@.len() == n,
                t2 == toks_view(tokens2@),
                forall|z: usize|
                    (z as int) < n ==> #[trigger] t2[z as int] == (if keep_in_extract(
                        t,
                        root,
                        e,
                        z,
                    ) {
                        Some(extract_token(t, root, z))
                    } else {
                        None
                    }),
                forall|p: int, a: int|
                    0 <= p < n && 0 <= a < kids_view(children2@)[p].len() ==> {
                        let c = (#[trigger] kids_view(children2@)[p][a]) as int;
                        0 < c < y && t2[c] is Some && t2[c].unwrap().parent_id == p
                    },
                forall|c: usize|
                    0 < c < y && t2[c as int] is Some ==> #[trigger] kids_view(
                        children2@,
                    )[t2[c as int].unwrap().parent_id as int].contains(c),
                forall|p: int, a: int, b: int|
                    0 <= p < n && 0 <= a < b < kids_view(children2@)[p].len()
                        ==> #[trigger] kids_view(children2@)[p][a] < #[trigger] kids_view(
                        children2@,
                    )[p][b],
            decreases n - y,
        {
            proof {
                assert(toks_view(tokens2@)[y as int] == (match tokens2@[y as int] {
                    Some(tk) => Some(tk@),
                    None => None,
                }));
            }
            let par2: Option<usize> = match &tokens2[y] {
                Some(tk) => Some(tk.parent_id()),
                None => None,
            };
            match par2 {
                Some(p2) => {
                    proof {
                        assert(t2[y as int] is Some);
                        assert(keep_in_extract(t, root, e, y));
                        assert(t.tok_ok(y as int));
                        assert(p2 < y);
                    }
                    let ghost pre_c2 = children2@;
                    children2[p2].push(y);
                    proof {
                        assert forall|w: int|
                            0 <= w < pre_c2.len() implies #[trigger] kids_view(children2@)[w] == (
                        if w == p2 as int {
                            kids_view(pre_c2)[w].push(y)
                        } else {
                            kids_view(pre_c2)[w]
                        }) by {
                            if w != p2 as int {
                                assert(children2@[w] == pre_c2[w]);
                            }
                        }
                        assert forall|c: usize|
                            0 < c < y + 1 && t2[c as int] is Some implies #[trigger] kids_view(
                            children2@,
                        )[t2[c as int].unwrap().parent_id as int].contains(c) by {
                            let pc = t2[c as int].unwrap().parent_id as int;
                            if c == y {
                                let lst = kids_view(children2@)[p2 as int];
                                assert(lst == kids_view(pre_c2)[p2 as int].push(y));
                                assert(lst[lst.len() - 1] == y);
                            } else {
                                assert(kids_view(pre_c2)[pc].contains(c));
                                let w = choose|w: int|
                                    0 <= w < kids_view(pre_c2)[pc].len() && kids_view(
                                        pre_c2,
                                    )[pc][w] == c;
                                if pc == p2 as int {
                                    assert(kids_view(children2@)[pc][w] == c);
                                } else {
                                    assert(kids_view(children2@)[pc][w] == c);
                                }
                            }
                        }
                    }
                },
                None => {},
            }
            y = y + 1;
        }

        // Assemble the extracted document.
        let st = Stack {
            parent_id: 0,
            tokens: tokens2,
            children: children2,
            code: code2,
            position: 0,
            parent_position: 0,
            excludes: Vec::new(),
        };
        proof {
            assert(st@.tokens == t2);
            assert(st@.excludes =~= Seq::<usize>::empty());
            lemma_extract_wf(sv, t, root, e, st@);
        }
        Some(st)
    }
}

/// The extracted document is well-formed: its arena holds exactly the
/// kept nodes and its adjacency was rebuilt to match them.
proof fn lemma_extract_wf(
    sv: StackView,
    t: TreeView,
    root: usize,
    e: Seq<usize>,
    st: StackView,
)
    requires
        sv.wf(),
        t == sv.tree(),
        st.parent_id == 0,
        st.tokens.len() == sv.tokens.len(),
        st.children.len() == sv.tokens.len(),
        forall|z: usize|
            (z as int) < st.tokens.len() ==> #[trigger] st.tokens[z as int] == (
            if keep_in_extract(t, root, e, z) {
                Some(extract_token(t, root, z))
            } else {
                None
            }),
        forall|p: int, a: int|
            0 <= p < st.children.len() && 0 <= a < st.children[p].len() ==> {
                let c = (#[trigger] st.children[p][a]) as int;
                0 < c < st.tokens.len() && st.tokens[c] is Some && st.tokens[c].unwrap().parent_id
                    == p
            },
        forall|c: usize|
            0 < (c as int) < st.tokens.len() && st.tokens[c as int] is Some
                ==> #[trigger] st.children[st.tokens[c as int].unwrap().parent_id as int].contains(
                c,
            ),
        forall|p: int, a: int, b: int|
            0 <= p < st.children.len() && 0 <= a < b < st.children[p].len()
                ==> #[trigger] st.children[p][a] < #[trigger] st.children[p][b],
    ensures
        st.wf(),
{
    assert(st.tokens[0] is None) by {
        assert(st.tokens[0] == (if keep_in_extract(t, root, e, 0) {
            Some(extract_token(t, root, 0))
        } else {
            None
        }));
        if keep_in_extract(t, root, e, 0) {
            assert(t.tok(0) is Some);
        }
    }
    assert forall|i: int|
        0 <= i < st.tokens.len() && st.tokens[i] is Some implies #[trigger] st.tree().tok_ok(
        i,
    ) by {
        let x = i as usize;
        assert(st.tokens[x as int] == (if keep_in_extract(t, root, e, x) {
            Some(extract_token(t, root, x))
        } else {
            None
        }));
        assert(keep_in_extract(t, root, e, x));
        assert(t.tok_ok(i));
        let tok = t.tok(x).unwrap();
        let q = tok.parent_id;
        let tk2 = st.tokens[i].unwrap();
        assert(tk2.id == x);
        if q == root {
            assert(tk2.parent_id == 0);
        } else {
            assert(clean_to(t, x, root, e));
            assert(clean_to(t, q, root, e));
            if q == 0 {
                assert(root != 0 ==> !clean_to(t, 0, root, e));
                assert(root == 0 ==> q == root);
                assert(false);
            }
            assert(t.tok(q) is Some);
            assert(keep_in_extract(t, root, e, q));
            assert(st.tokens[q as int] is Some);
        }
        assert(st.children[tk2.parent_id as int].contains(tk2.id));
        assert(st.tree().kids(tk2.parent_id) == st.children[tk2.parent_id as int]);
    }
    assert forall|p: int, a: int|
        0 <= p < st.children.len() && 0 <= a < st.children[p].len() implies #[trigger] st.tree().kid_ok(
        p,
        a,
    ) by {
        let c = st.children[p][a];
        assert(0 < (c as int) < st.tokens.len() && st.tokens[c as int] is Some
            && st.tokens[c as int].unwrap().parent_id == p);
        assert(st.tokens[c as int] == (if keep_in_extract(t, root, e, c) {
            Some(extract_token(t, root, c))
        } else {
            None
        }));
        let tok = t.tok(c).unwrap();
        assert(t.tok_ok(c as int));
        if tok.parent_id == root {
            assert(p == 0);
        } else {
            assert(p == tok.parent_id as int);
            assert(p < c as int);
        }
    }
    assert forall|p: int|
        0 <= p < st.children.len() && (#[trigger] st.children[p]).len() > 0 implies p == 0
        || st.tokens[p] is Some by {
        if p != 0 {
            let c = st.children[p][0];
            assert(0 < (c as int) < st.tokens.len() && st.tokens[c as int] is Some
                && st.tokens[c as int].unwrap().parent_id == p);
            assert(keep_in_extract(t, root, e, c));
            let tok = t.tok(c).unwrap();
            assert(clean_to(t, c, root, e));
            let q = tok.parent_id;
            if q == root {
                assert(st.tokens[c as int].unwrap().parent_id == 0);
            } else {
                assert(clean_to(t, q, root, e));
                if q == 0 {
                    assert(false);
                }
                assert(keep_in_extract(t, root, e, q));
                assert(st.tokens[q as int] is Some);
            }
        }
    }
}


impl Default for Stack {
    /// An empty store over empty source text.
    fn default() -> (r: Self)
        ensures
            r@ == spec_new(Seq::empty()),
            r@.wf(),
    {
        let r = Stack::new("");
        proof {
            reveal_strlit("");
            assert(""@ =~= Seq::<char>::empty());
        }
        r
    }
}

impl Stack {
    /// A mutable borrow of one stored node; whatever the caller finally
    /// leaves behind the reference becomes the stored node, everything
    /// else staying as it was.
    pub fn get_mut<'a>(&'a mut self, token_id: &usize) -> (r: Option<&'a mut Token>)
        ensures
            r is Some <==> old(self)@.tok(*token_id) is Some,
            r is Some ==> (*r.unwrap())@ == old(self)@.tok(*token_id).unwrap() && final(self)@ == (
            StackView {
                tokens: old(self)@.tokens.update(
                    *token_id as int,
                    Some((*final(r.unwrap()))@),
                ),
                ..old(self)@
            }),
            r is None ==> *final(self) == *old(self),
    {
        let ghost pre = self@;
        if *token_id >= self.tokens.len() {
            return None;
        }
        proof {
            assert(toks_view(self.tokens@)[*token_id as int] == (
            match self.tokens@[*token_id as int] {
                Some(t) => Some(t@),
                None => None,
            }));
        }
        let present: bool = match &self.tokens[*token_id] {
            Some(_) => true,
            None => false,
        };
        if !present {
            return None;
        }
        let slot: &mut Option<Token> = &mut self.tokens[*token_id];
        let r = slot.as_mut();
        proof {
        assert forall|sq: Seq<Option<Token>>, i: int, o: Option<Token>|
            0 <= i < sq.len() implies #[trigger] toks_view(sq.update(i, o)) =~= toks_view(
            sq,
        ).update(
            i,
            match o {
                Some(t) => Some(t@),
                None => None,
            },
        ) by {
            lemma_toks_view_update(sq, i, o);
        }
        }
        r
    }

    /// Advances the traversal as `pull` does and hands out a mutable
    /// borrow of the node it reaches; whatever the caller finally leaves
    /// behind the reference becomes the stored node.
    pub fn pull_mut<'a>(&'a mut self) -> (r: Option<&'a mut Token>)
        requires
            old(self)@.wf(),
            cursor_ok(old(self)@),
        ensures
            r is Some <==> remaining(old(self)@).len() > 0,
            r is Some ==> (*r.unwrap())@ == old(self)@.tok(remaining(old(self)@)[0]).unwrap()
                && final(self)@ == (StackView {
                position: remaining(old(self)@)[0],
                tokens: old(self)@.tokens.update(
                    remaining(old(self)@)[0] as int,
                    Some((*final(r.unwrap()))@),
                ),
                ..old(self)@
            }),
            r is None ==> final(self)@ == old(self)@,
    {
        let pos = match self.get_next_position() {
            None => {
                return None;
            },
            Some(pos) => pos,
        };
        proof {
            assert(toks_view(self.tokens@)[pos as int] == (match self.tokens@[pos as int] {
                Some(t) => Some(t@),
                None => None,
            }));
        }
        let slot: &mut Option<Token> = &mut self.tokens[pos];
        let r = slot.as_mut();
        proof {
            assert(r is Some);
        assert forall|sq: Seq<Option<Token>>, i: int, o: Option<Token>|
            0 <= i < sq.len() implies #[trigger] toks_view(sq.update(i, o)) =~= toks_view(
            sq,
        ).update(
            i,
            match o {
                Some(t) => Some(t@),
                None => None,
            },
        ) by {
            lemma_toks_view_update(sq, i, o);
        }
        }
        r
    }
}

impl Token {
    /// A mutable borrow of this node's stored counterpart; whatever the
    /// caller finally leaves behind the reference becomes the stored
    /// node, everything else staying as it was.
    pub fn as_mut<'a>(&self, stack: &'a mut Stack) -> (r: &'a mut Token)
        requires
            old(stack)@.tok(self@.id) is Some,
        ensures
            (*r)@ == old(stack)@.tok(self@.id).unwrap(),
            final(stack)@ == (StackView {
                tokens: old(stack)@.tokens.update(self@.id as int, Some((*final(r))@)),
                ..old(stack)@
            }),
    {
        let id = self.id();
        proof {
            assert(toks_view(stack.tokens@)[id as int] == (match stack.tokens@[id as int] {
                Some(t) => Some(t@),
                None => None,
            }));
        }
        let slot: &mut Option<Token> = &mut stack.tokens[id];
        let r = slot.as_mut();
        proof {
            assert(r is Some);
            assert forall|sq: Seq<Option<Token>>, i: int, o: Option<Token>|
                0 <= i < sq.len() implies #[trigger] toks_view(sq.update(i, o)) =~= toks_view(
                sq,
            ).update(
                i,
                match o {
                    Some(t) => Some(t@),
                    None => None,
                },
            ) by {
                lemma_toks_view_update(sq, i, o);
            }
        }
        r.unwrap()
    }
}


/// Two trees with the same adjacency and the same nodes in place, their
/// parent links agreeing: all that traversal reads.  Editing a node's
/// tag, attributes or contents keeps the shape.
pub open spec fn same_shape(t1: TreeView, t2: TreeView) -> bool {
    &&& t1.children == t2.children
    &&& t1.tokens.len() == t2.tokens.len()
    &&& forall|i: int|
        0 <= i < t1.tokens.len() ==> ((#[trigger] t1.tokens[i]) is Some == (
        #[trigger] t2.tokens[i]) is Some && (t1.tokens[i] is Some
            ==> t1.tokens[i].unwrap().parent_id == t2.tokens[i].unwrap().parent_id))
}

/// Scope chains read only the shape.
pub proof fn lemma_in_scope_shape(t1: TreeView, t2: TreeView, x: usize, scope: usize)
    requires
        same_shape(t1, t2),
    ensures
        in_scope(t1, x, scope) == in_scope(t2, x, scope),
    decreases x,
{
    if x == scope || x == 0 {
    } else if t1.tok(x) is Some {
        let q = t1.tok(x).unwrap().parent_id;
        if q < x {
            lemma_in_scope_shape(t1, t2, q, scope);
        }
    }
}

/// Forest walks read only the shape.
pub proof fn lemma_forest_shape(t1: TreeView, t2: TreeView, l: Seq<usize>, p: usize, e: Seq<usize>)
    requires
        same_shape(t1, t2),
    ensures
        forest_ex(t1, l, p, e) == forest_ex(t2, l, p, e),
    decreases t1.tokens.len() - p, l.len(),
{
    if l.len() == 0 {
    } else {
        let c = l[0];
        lemma_forest_shape(t1, t2, l.drop_first(), p, e);
        if !e.contains(c) && p < c && (c as int) < t1.tokens.len() {
            assert(t1.kids(c) == t2.kids(c));
            lemma_forest_shape(t1, t2, t1.kids(c), c, e);
        }
    }
}

/// The up-chain of a traversal reads only the shape.
pub proof fn lemma_up_chain_shape(t1: TreeView, t2: TreeView, x: usize, scope: usize, e: Seq<usize>)
    requires
        same_shape(t1, t2),
    ensures
        up_chain(t1, x, scope, e) == up_chain(t2, x, scope, e),
    decreases x,
{
    if x == scope || x == 0 || t1.tok(x) is None {
    } else {
        let q = t1.tok(x).unwrap().parent_id;
        if q < x {
            assert(t1.kids(q) == t2.kids(q));
            lemma_forest_shape(t1, t2, t1.kids(q).skip(t1.kids(q).index_of(x) + 1), q, e);
            lemma_up_chain_shape(t1, t2, q, scope, e);
        }
    }
}

/// What a traversal still has to visit, and whether its cursor stands
/// sound, read only the shape and the cursor fields.
pub proof fn lemma_remaining_shape(sv1: StackView, sv2: StackView)
    requires
        same_shape(sv1.tree(), sv2.tree()),
        sv1.position == sv2.position,
        sv1.parent_position == sv2.parent_position,
        sv1.excludes == sv2.excludes,
    ensures
        remaining(sv1) == remaining(sv2),
        cursor_ok(sv1) == cursor_ok(sv2),
{
    assert(sv1.tree().kids(sv1.position) == sv2.tree().kids(sv2.position));
    lemma_forest_shape(
        sv1.tree(),
        sv2.tree(),
        sv1.tree().kids(sv1.position),
        sv1.position,
        sv1.excludes,
    );
    lemma_up_chain_shape(sv1.tree(), sv2.tree(), sv1.position, sv1.parent_position, sv1.excludes);
    lemma_in_scope_shape(sv1.tree(), sv2.tree(), sv1.position, sv1.parent_position);
}

impl Stack {
    /// Writes the given text into one stored node's contents, leaving
    /// everything else in place; a missing id changes nothing.
    pub(crate) fn set_token_contents(&mut self, token_id: usize, text: &str)
        requires
            old(self)@.wf(),
        ensures
            final(self)@.wf(),
            final(self)@ == if old(self)@.tok(token_id) is Some {
                StackView {
                    tokens: old(self)@.tokens.update(
                        token_id as int,
                        Some(
                            TokenView {
                                contents: text@,
                                ..old(self)@.tok(token_id).unwrap()
                            },
                        ),
                    ),
                    ..old(self)@
                }
            } else {
                old(self)@
            },
    {
        let ghost pre = self@;
        if token_id >= self.tokens.len() {
            return ;
        }
        proof {
            assert(toks_view(self.tokens@)[token_id as int] == (
            match self.tokens@[token_id as int] {
                Some(t) => Some(t@),
                None => None,
            }));
        }
        let ghost pre_toks = self.tokens@;
        match &mut self.tokens[token_id] {
            Some(t) => {
                t.set_contents(text);
                proof {
                    lemma_toks_view_update(pre_toks, token_id as int, self.tokens@[token_id as int]);
                    let t2 = TokenView { contents: text@, ..pre.tok(token_id).unwrap() };
                    assert(pre.tree().tok_ok(token_id as int));
                    assert(t2.id == token_id);
                    assert(toks_view(self.tokens@) =~= pre.tokens.update(
                        token_id as int,
                        Some(t2),
                    ));
                    assert(self@ =~= (StackView {
                        tokens: pre.tokens.update(token_id as int, Some(t2)),
                        ..pre
                    }));
                    lemma_wf_save(pre, t2);
                }
            },
            None => {
                proof {
                    assert(self@ =~= pre);
                }
            },
        }
    }
}

} // verus!
