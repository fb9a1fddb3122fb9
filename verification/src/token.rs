//! The node entity: one parsed tag or comment, with its identity, its
//! place in the tree, its attributes and its contents.
use crate::attr::{attrs_put, parse_attr_chars, spec_parse_attr};
use crate::text::{
    chars_eq, chars_to_string, contains_chars, contains_sub, copy_range, has_segment,
    has_segment_exec, pairs_view, str_to_chars, string_pairs_view,
};
use vstd::prelude::*;

verus! {

/// The mathematical value of a node.
#[verifier::ext_equal]
pub ghost struct TokenView {
    /// Positive, unique, assigned in discovery order; `0` never names a
    /// real node.
    pub id: usize,
    /// The id of the enclosing node, or `0` at top level.
    pub parent_id: usize,
    /// True once a matching close tag has been seen.
    pub is_closed: bool,
    /// True for `<.../>` tags and for comments.
    pub is_single: bool,
    /// 1-based nesting rank among open nodes of the same tag name at the
    /// moment this node was opened.
    pub depth: usize,
    /// The tag name; the sentinel `!` denotes a comment.
    pub tag: Seq<char>,
    /// Key/value pairs, unique keys, in first-insertion order.
    pub attrs: Seq<(Seq<char>, Seq<char>)>,
    /// Text inside the opening tag that matched no `key=value` pair.
    pub attr_extra: Seq<char>,
    /// The recorded text between the open and close tags; comments carry
    /// their whole literal text here.
    pub contents: Seq<char>,
}

/// The value bound to `key`, from the first pair that holds it.
pub open spec fn attrs_lookup(attrs: Seq<(Seq<char>, Seq<char>)>, key: Seq<char>) -> Option<
    Seq<char>,
>
    decreases attrs.len(),
{
    if attrs.len() == 0 {
        None
    } else if attrs[0].0 == key {
        Some(attrs[0].1)
    } else {
        attrs_lookup(attrs.drop_first(), key)
    }
}

/// The mapping with the first pair holding `key` removed.
pub open spec fn attrs_del(attrs: Seq<(Seq<char>, Seq<char>)>, key: Seq<char>) -> Seq<
    (Seq<char>, Seq<char>),
>
    decreases attrs.len(),
{
    if attrs.len() == 0 {
        attrs
    } else if attrs[0].0 == key {
        attrs.drop_first()
    } else {
        seq![attrs[0]] + attrs_del(attrs.drop_first(), key)
    }
}

/// `attrs_lookup` read off the first index holding the key.
pub proof fn lemma_lookup_at(attrs: Seq<(Seq<char>, Seq<char>)>, key: Seq<char>, i: int)
    requires
        0 <= i <= attrs.len(),
        forall|j: int| 0 <= j < i ==> attrs[j].0 != key,
        i < attrs.len() ==> attrs[i].0 == key,
        i == attrs.len() ==> forall|j: int| 0 <= j < attrs.len() ==> attrs[j].0 != key,
    ensures
        i < attrs.len() ==> attrs_lookup(attrs, key) == Some(attrs[i].1),
        i == attrs.len() ==> attrs_lookup(attrs, key) is None,
    decreases attrs.len(),
{
    if attrs.len() == 0 {
    } else if attrs[0].0 == key {
        assert(i == 0);
    } else {
        lemma_lookup_at(attrs.drop_first(), key, i - 1);
    }
}

/// `attrs_del` read off the first index holding the key.
pub proof fn lemma_del_at(attrs: Seq<(Seq<char>, Seq<char>)>, key: Seq<char>, i: int)
    requires
        0 <= i <= attrs.len(),
        forall|j: int| 0 <= j < i ==> attrs[j].0 != key,
        i < attrs.len() ==> attrs[i].0 == key,
        i == attrs.len() ==> forall|j: int| 0 <= j < attrs.len() ==> attrs[j].0 != key,
    ensures
        i < attrs.len() ==> attrs_del(attrs, key) =~= attrs.remove(i),
        i == attrs.len() ==> attrs_del(attrs, key) =~= attrs,
    decreases attrs.len(),
{
    if attrs.len() == 0 {
    } else if attrs[0].0 == key {
        assert(i == 0);
        assert(attrs.drop_first() =~= attrs.remove(0));
    } else {
        lemma_del_at(attrs.drop_first(), key, i - 1);
        if i < attrs.len() {
            assert(seq![attrs[0]] + attrs.drop_first().remove(i - 1) =~= attrs.remove(i));
        } else {
            assert(seq![attrs[0]] + attrs.drop_first() =~= attrs);
        }
    }
}

/// The parsed tag or comment.
pub struct Token {
    id: usize,
    parent_id: usize,
    is_closed: bool,
    is_single: bool,
    depth: usize,
    tag: Vec<char>,
    attributes: Vec<(Vec<char>, Vec<char>)>,
    attr_extra: Vec<char>,
    contents: Vec<char>,
}

impl View for Token {
    type V = TokenView;

    closed spec fn view(&self) -> TokenView {
        TokenView {
            id: self.id,
            parent_id: self.parent_id,
            is_closed: self.is_closed,
            is_single: self.is_single,
            depth: self.depth,
            tag: self.tag@,
            attrs: pairs_view(self.attributes@),
            attr_extra: self.attr_extra@,
            contents: self.contents@,
        }
    }
}

impl Clone for Token {
    /// An equal copy of the node.
    fn clone(&self) -> (r: Self)
        ensures
            r@ == self@,
    {
        let mut attributes: Vec<(Vec<char>, Vec<char>)> = Vec::new();
        let mut i: usize = 0;
        while i < self.attributes.len()
            invariant
                i <= self.attributes@.len(),
                pairs_view(attributes@) == pairs_view(self.attributes@).take(i as int),
            decreases self.attributes@.len() - i,
        {
            let p = &self.attributes[i];
            let key = copy_range(&p.0, 0, p.0.len());
            let val = copy_range(&p.1, 0, p.1.len());
            proof {
                assert(p.0@.subrange(0, p.0@.len() as int) =~= p.0@);
                assert(p.1@.subrange(0, p.1@.len() as int) =~= p.1@);
            }
            let ghost pre = attributes@;
            let ghost k0 = key@;
            let ghost v0 = val@;
            attributes.push((key, val));
            i = i + 1;
            proof {
                let x = attributes@.last();
                assert(attributes@ =~= pre.push(x));
                crate::text::lemma_pairs_view_push(pre, x);
                assert(x.0@ == k0 && x.1@ == v0);
                assert(pairs_view(self.attributes@).take(i as int) =~= pairs_view(
                    self.attributes@,
                ).take(i - 1).push(pairs_view(self.attributes@)[i - 1]));
                assert(pairs_view(attributes@) =~= pairs_view(self.attributes@).take(i as int));
            }
        }
        proof {
            assert(pairs_view(self.attributes@).take(self.attributes@.len() as int) =~= pairs_view(
                self.attributes@,
            ));
        }
        let r = Token {
            id: self.id,
            parent_id: self.parent_id,
            is_closed: self.is_closed,
            is_single: self.is_single,
            depth: self.depth,
            tag: copy_range(&self.tag, 0, self.tag.len()),
            attributes,
            attr_extra: copy_range(&self.attr_extra, 0, self.attr_extra.len()),
            contents: copy_range(&self.contents, 0, self.contents.len()),
        };
        proof {
            assert(self.tag@.subrange(0, self.tag@.len() as int) =~= self.tag@);
            assert(self.attr_extra@.subrange(0, self.attr_extra@.len() as int)
                =~= self.attr_extra@);
            assert(self.contents@.subrange(0, self.contents@.len() as int) =~= self.contents@);
            assert(r@ =~= self@);
        }
        r
    }
}

impl Token {
    /// A new node: the attribute-string is parsed into the mapping and the
    /// leftover text.
    pub fn new(
        id: &usize,
        parent_id: &usize,
        depth: &usize,
        is_single: &bool,
        tag: &str,
        attr_string: &str,
        contents: &str,
    ) -> (r: Self)
        ensures
            r@ == (TokenView {
                id: *id,
                parent_id: *parent_id,
                is_closed: false,
                is_single: *is_single,
                depth: *depth,
                tag: tag@,
                attrs: spec_parse_attr(attr_string@).0,
                attr_extra: spec_parse_attr(attr_string@).1,
                contents: contents@,
            }),
    {
        let attr_chars = str_to_chars(attr_string);
        let (attributes, attr_extra) = parse_attr_chars(&attr_chars);
        let r = Token {
            id: *id,
            parent_id: *parent_id,
            is_closed: false,
            is_single: *is_single,
            depth: *depth,
            tag: str_to_chars(tag),
            attributes,
            attr_extra,
            contents: str_to_chars(contents),
        };
        proof {
            assert(r@ =~= (TokenView {
                id: *id,
                parent_id: *parent_id,
                is_closed: false,
                is_single: *is_single,
                depth: *depth,
                tag: tag@,
                attrs: spec_parse_attr(attr_string@).0,
                attr_extra: spec_parse_attr(attr_string@).1,
                contents: contents@,
            }));
        }
        r
    }

    /// The node's id.
    pub fn id(&self) -> (r: usize)
        ensures
            r == self@.id,
    {
        self.id
    }

    /// The id of the enclosing node, `0` at top level.
    pub fn parent_id(&self) -> (r: usize)
        ensures
            r == self@.parent_id,
    {
        self.parent_id
    }

    /// Whether a matching close tag has been seen.
    pub fn is_closed(&self) -> (r: bool)
        ensures
            r == self@.is_closed,
    {
        self.is_closed
    }

    /// Whether the tag closed itself (`<.../>`); comments count as well.
    pub fn is_self_closing(&self) -> (r: bool)
        ensures
            r == self@.is_single,
    {
        self.is_single
    }

    /// The nesting rank among same-named open nodes at open time.
    pub fn depth(&self) -> (r: usize)
        ensures
            r == self@.depth,
    {
        self.depth
    }

    /// The tag name.
    pub fn tag(&self) -> (r: String)
        ensures
            r@ == self@.tag,
    {
        chars_to_string(&self.tag)
    }

    /// All attributes, in mapping order.
    pub fn attributes(&self) -> (r: Vec<(String, String)>)
        ensures
            string_pairs_view(r@) == self@.attrs,
    {
        let mut r: Vec<(String, String)> = Vec::new();
        let mut i: usize = 0;
        while i < self.attributes.len()
            invariant
                i <= self.attributes@.len(),
                string_pairs_view(r@) == pairs_view(self.attributes@).take(i as int),
            decreases self.attributes@.len() - i,
        {
            let p = &self.attributes[i];
            let key = chars_to_string(&p.0);
            let val = chars_to_string(&p.1);
            let ghost pre = r@;
            let ghost k0 = key@;
            let ghost v0 = val@;
            r.push((key, val));
            i = i + 1;
            proof {
                let x = r@.last();
                assert(r@ =~= pre.push(x));
                crate::text::lemma_string_pairs_view_push(pre, x);
                assert(x.0@ == k0 && x.1@ == v0);
                assert(pairs_view(self.attributes@).take(i as int) =~= pairs_view(
                    self.attributes@,
                ).take(i - 1).push(pairs_view(self.attributes@)[i - 1]));
                assert(string_pairs_view(r@) =~= pairs_view(self.attributes@).take(i as int));
            }
        }
        proof {
            assert(pairs_view(self.attributes@).take(self.attributes@.len() as int) =~= pairs_view(
                self.attributes@,
            ));
        }
        r
    }

    /// The leftover text inside the opening tag.
    pub fn attr_extra(&self) -> (r: String)
        ensures
            r@ == self@.attr_extra,
    {
        chars_to_string(&self.attr_extra)
    }

    /// The value of one attribute, if present.
    pub fn attr(&self, key: &str) -> (r: Option<String>)
        ensures
            match r {
                Some(v) => attrs_lookup(self@.attrs, key@) == Some(v@),
                None => attrs_lookup(self@.attrs, key@) is None,
            },
    {
        let kc = str_to_chars(key);
        match crate::attr::find_key(&self.attributes, &kc) {
            Some(idx) => {
                proof {
                    lemma_lookup_at(self@.attrs, key@, idx as int);
                }
                Some(chars_to_string(&self.attributes[idx].1))
            },
            None => {
                proof {
                    lemma_lookup_at(self@.attrs, key@, self@.attrs.len() as int);
                }
                None
            },
        }
    }

    /// Whether the attribute exists and holds exactly `value`.
    pub fn attr_equals(&self, key: &str, value: &str) -> (r: bool)
        ensures
            r == (attrs_lookup(self@.attrs, key@) == Some(value@)),
    {
        let kc = str_to_chars(key);
        let vc = str_to_chars(value);
        match crate::attr::find_key(&self.attributes, &kc) {
            Some(idx) => {
                proof {
                    lemma_lookup_at(self@.attrs, key@, idx as int);
                }
                chars_eq(&self.attributes[idx].1, &vc)
            },
            None => {
                proof {
                    lemma_lookup_at(self@.attrs, key@, self@.attrs.len() as int);
                }
                false
            },
        }
    }

    /// Whether the attribute exists at all.
    pub fn has_attr(&self, key: &str) -> (r: bool)
        ensures
            r == (attrs_lookup(self@.attrs, key@) is Some),
    {
        let kc = str_to_chars(key);
        match crate::attr::find_key(&self.attributes, &kc) {
            Some(idx) => {
                proof {
                    lemma_lookup_at(self@.attrs, key@, idx as int);
                }
                true
            },
            None => {
                proof {
                    lemma_lookup_at(self@.attrs, key@, self@.attrs.len() as int);
                }
                false
            },
        }
    }

    /// Whether the attribute's value holds `needle` as a
    /// whitespace-separated segment: the `class` membership test.
    pub fn attr_has_segment(&self, key: &str, needle: &str) -> (r: bool)
        ensures
            r == match attrs_lookup(self@.attrs, key@) {
                Some(v) => has_segment(v, needle@),
                None => false,
            },
    {
        let kc = str_to_chars(key);
        let nc = str_to_chars(needle);
        match crate::attr::find_key(&self.attributes, &kc) {
            Some(idx) => {
                proof {
                    lemma_lookup_at(self@.attrs, key@, idx as int);
                }
                has_segment_exec(&self.attributes[idx].1, &nc)
            },
            None => {
                proof {
                    lemma_lookup_at(self@.attrs, key@, self@.attrs.len() as int);
                }
                false
            },
        }
    }

    /// Whether the attribute's value holds `needle` as a substring.
    pub fn attr_contains(&self, key: &str, needle: &str) -> (r: bool)
        ensures
            r == match attrs_lookup(self@.attrs, key@) {
                Some(v) => contains_sub(v, needle@),
                None => false,
            },
    {
        let kc = str_to_chars(key);
        let nc = str_to_chars(needle);
        match crate::attr::find_key(&self.attributes, &kc) {
            Some(idx) => {
                proof {
                    lemma_lookup_at(self@.attrs, key@, idx as int);
                }
                contains_chars(&self.attributes[idx].1, &nc)
            },
            None => {
                proof {
                    lemma_lookup_at(self@.attrs, key@, self@.attrs.len() as int);
                }
                false
            },
        }
    }

    /// The recorded contents; empty while the tag stands unclosed.
    pub fn contents(&self) -> (r: String)
        ensures
            r@ == self@.contents,
    {
        chars_to_string(&self.contents)
    }

    /// The contents as characters, for the renderers.
    pub(crate) fn contents_chars(&self) -> (r: &Vec<char>)
        ensures
            r@ == self@.contents,
    {
        &self.contents
    }

    /// The tag name as characters, for the renderers.
    pub(crate) fn tag_chars(&self) -> (r: &Vec<char>)
        ensures
            r@ == self@.tag,
    {
        &self.tag
    }

    /// The attribute pairs as characters, for the renderers.
    pub(crate) fn attr_pairs(&self) -> (r: &Vec<(Vec<char>, Vec<char>)>)
        ensures
            pairs_view(r@) == self@.attrs,
    {
        &self.attributes
    }

    /// The leftover opening-tag text as characters, for the renderers.
    pub(crate) fn attr_extra_chars(&self) -> (r: &Vec<char>)
        ensures
            r@ == self@.attr_extra,
    {
        &self.attr_extra
    }

    /// A copy of the node under another parent, for subtree extraction.
    pub(crate) fn reparented(&self, parent_id: usize) -> (r: Token)
        ensures
            r@ == (TokenView { parent_id: parent_id, ..self@ }),
    {
        let mut c = self.clone();
        c.parent_id = parent_id;
        c
    }

    /// Marks the node closed.
    pub fn mark_closed(&mut self)
        ensures
            final(self)@ == (TokenView { is_closed: true, ..old(self)@ }),
    {
        self.is_closed = true;
    }

    /// Renames the tag.
    pub fn set_tag(&mut self, tag_name: &str)
        ensures
            final(self)@ == (TokenView { tag: tag_name@, ..old(self)@ }),
    {
        self.tag = str_to_chars(tag_name);
    }

    /// Sets an attribute: overwrites the existing value or appends a new
    /// pair.
    pub fn set_attr(&mut self, key: &str, value: &str)
        ensures
            final(self)@ == (TokenView {
                attrs: attrs_put(old(self)@.attrs, key@, value@),
                ..old(self)@
            }),
    {
        let kc = str_to_chars(key);
        let vc = str_to_chars(value);
        crate::attr::attrs_put_exec(&mut self.attributes, kc, vc);
    }

    /// Deletes an attribute, if present.
    pub fn del_attr(&mut self, key: &str)
        ensures
            final(self)@ == (TokenView { attrs: attrs_del(old(self)@.attrs, key@), ..old(self)@ }),
    {
        let kc = str_to_chars(key);
        match crate::attr::find_key(&self.attributes, &kc) {
            Some(idx) => {
                proof {
                    lemma_del_at(old(self)@.attrs, key@, idx as int);
                }
                self.attributes.remove(idx);
                proof {
                    assert(pairs_view(self.attributes@) =~= old(self)@.attrs.remove(idx as int));
                }
            },
            None => {
                proof {
                    lemma_del_at(old(self)@.attrs, key@, old(self)@.attrs.len() as int);
                }
            },
        }
    }

    /// Removes every attribute.
    pub fn purge_attr(&mut self)
        ensures
            final(self)@ == (TokenView { attrs: Seq::empty(), ..old(self)@ }),
    {
        self.attributes.clear();
        proof {
            assert(pairs_view(self.attributes@) =~= Seq::<(Seq<char>, Seq<char>)>::empty());
        }
    }

    /// Replaces the leftover opening-tag text.
    pub fn set_attr_extra(&mut self, extra: &str)
        ensures
            final(self)@ == (TokenView { attr_extra: extra@, ..old(self)@ }),
    {
        self.attr_extra = str_to_chars(extra);
    }

    /// Replaces the recorded contents.
    pub fn set_contents(&mut self, contents: &str)
        ensures
            final(self)@ == (TokenView { contents: contents@, ..old(self)@ }),
    {
        self.contents = str_to_chars(contents);
    }
}


/// The mathematical values of a list of nodes.
pub open spec fn tokens_view(s: Seq<Token>) -> Seq<TokenView> {
    s.map_values(|t: Token| t@)
}

/// Appending a node appends its mathematical value.
pub proof fn lemma_tokens_view_push(s: Seq<Token>, t: Token)
    ensures
        tokens_view(s.push(t)) =~= tokens_view(s).push(t@),
{
    assert forall|k: int| 0 <= k < s.len() + 1 implies #[trigger] tokens_view(s.push(t))[k]
        == tokens_view(s).push(t@)[k] by {
        if k < s.len() {
            assert(s.push(t)[k] == s[k]);
        } else {
            assert(s.push(t)[k] == t);
        }
    }
}

} // verus!
