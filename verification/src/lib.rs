//! An in-memory markup tokenizer and tree-manipulation engine: it turns a
//! raw markup document into an indexed collection of tagged nodes anchored
//! inside a live text buffer, lets callers query the collection by
//! structural and attribute criteria, mutate matched nodes, and serialize
//! the document back to text with the edits applied.
//!
//! Parsing makes two passes.  The first claims every comment span
//! `<!-- ... -->` as a comment node.  The second scans the text between
//! the comment spans for `<...>` spans, in document order: a span whose
//! interior starts with `/` closes the most recently opened node of its
//! name, a span ending in `/` closes itself, a span whose trimmed
//! interior starts with `!` produces no node, and every other span opens
//! a node, its interior split at the first whitespace into the tag name
//! and the attribute-string.  Malformed input never fails: unmatched
//! close tags are dropped and unrecognised fragments stay as plain text.
pub mod attr;
pub mod laws;
pub mod query;
pub mod stack;
pub mod text;
pub mod token;
pub mod token_iter;

use crate::attr::{bump, spec_parse_attr};
use crate::stack::{
    cursor_ok, lemma_close_source, lemma_push_source, spec_close, spec_new, spec_push, Stack,
    StackView,
};
use crate::text::{
    chars_to_string, copy_range, find_sub, find_sub_from, str_to_chars, string_pairs_view,
    trim_chars, trim_ws, ws, ws_char,
};
use vstd::prelude::*;

verus! {

/// The opening delimiter of a comment.
pub open spec fn comment_open() -> Seq<char> {
    seq!['<', '!', '-', '-']
}

/// The closing delimiter of a comment.
pub open spec fn comment_close() -> Seq<char> {
    seq!['-', '-', '>']
}

/// Every comment span of `s` at or after `i`, in order: each starts at
/// the next `<!--` and ends just past the first `-->` after it; an
/// unterminated comment opener ends the pass.
pub open spec fn comment_spans(s: Seq<char>, i: int) -> Seq<(int, int)>
    decreases s.len() - i,
{
    match find_sub_from(s, comment_open(), i) {
        None => Seq::empty(),
        Some(p) => match find_sub_from(s, comment_close(), p + 4) {
            None => Seq::empty(),
            Some(q) => seq![(p, q + 3)] + comment_spans(s, bump(i, q + 3, s.len() as int)),
        },
    }
}

/// The first index in `[from, end)` holding `c`.
pub open spec fn find_char_in(s: Seq<char>, from: int, end: int, c: char) -> Option<int>
    decreases end - from,
{
    if from < 0 || from >= end || from >= s.len() {
        None
    } else if s[from] == c {
        Some(from)
    } else {
        find_char_in(s, from + 1, end, c)
    }
}

/// The first whitespace position of `t` at or after `i`.
pub open spec fn find_ws_seq(t: Seq<char>, i: int) -> Option<int>
    decreases t.len() - i,
{
    if i < 0 || i >= t.len() {
        None
    } else if ws_char(t[i]) {
        Some(i)
    } else {
        find_ws_seq(t, i + 1)
    }
}

/// The store after one `<...>` span `[q, r]`: a close resolves the most
/// recently opened node of its name, a declaration-like span produces
/// nothing, and any other span registers a node.
pub open spec fn apply_span(sv: StackView, s: Seq<char>, q: int, r: int) -> StackView {
    let closing = q + 1 < r && s[q + 1] == '/';
    let a0 = if closing {
        q + 2
    } else {
        q + 1
    };
    let single = a0 < r && s[r - 1] == '/';
    let b0 = if single {
        r - 1
    } else {
        r
    };
    let trimmed = trim_ws(s.subrange(a0, b0));
    if trimmed.len() > 0 && trimmed[0] == '!' {
        sv
    } else {
        let text = s.subrange(q, r + 1);
        let pair = match find_ws_seq(trimmed, 0) {
            Some(w) => (trimmed.subrange(0, w), trim_ws(
                trimmed.subrange(w + 1, trimmed.len() as int),
            )),
            None => (trimmed, Seq::<char>::empty()),
        };
        if closing {
            spec_close(sv, pair.0, text)
        } else {
            spec_push(sv, pair.0, pair.1, single, text)
        }
    }
}

/// The store after scanning for tag spans from gap `k`, position `i` on:
/// the text between the comment spans is searched for `<...>` spans in
/// order and each is applied.
pub open spec fn tag_scan(
    sv: StackView,
    s: Seq<char>,
    spans: Seq<(int, int)>,
    k: int,
    i: int,
) -> StackView
    decreases spans.len() - k, s.len() - i + 1,
{
    if k < 0 || k > spans.len() {
        sv
    } else {
        let gend = if k < spans.len() {
            spans[k].0
        } else {
            s.len() as int
        };
        let inext = if k < spans.len() && 0 <= spans[k].1 <= s.len() {
            spans[k].1
        } else {
            s.len() as int
        };
        match find_char_in(s, i, gend, '<') {
            None => if k < spans.len() {
                tag_scan(sv, s, spans, k + 1, inext)
            } else {
                sv
            },
            Some(q) => match find_char_in(s, q + 1, gend, '>') {
                None => if k < spans.len() {
                    tag_scan(sv, s, spans, k + 1, inext)
                } else {
                    sv
                },
                Some(r) => tag_scan(
                    apply_span(sv, s, q, r),
                    s,
                    spans,
                    k,
                    bump(i, r + 1, s.len() as int),
                ),
            },
        }
    }
}

/// The store after registering every comment span as a comment node, in
/// order.
pub open spec fn push_comments(sv: StackView, s: Seq<char>, spans: Seq<(int, int)>) -> StackView
    decreases spans.len(),
{
    if spans.len() == 0 {
        sv
    } else {
        let sp = spans[0];
        let text = if 0 <= sp.0 <= sp.1 <= s.len() {
            s.subrange(sp.0, sp.1)
        } else {
            Seq::empty()
        };
        push_comments(spec_push(sv, seq!['!'], Seq::empty(), true, text), s, spans.drop_first())
    }
}

/// What parsing a document yields: the fresh store over the text, the
/// comments claimed first, then every tag span applied in order.
pub open spec fn spec_parse_html(s: Seq<char>) -> StackView {
    let spans = comment_spans(s, 0);
    tag_scan(push_comments(spec_new(s), s, spans), s, spans, 0, 0)
}

/// The comment spans as mathematical pairs.
pub open spec fn spans_view(v: Seq<(usize, usize)>) -> Seq<(int, int)> {
    v.map_values(|p: (usize, usize)| (p.0 as int, p.1 as int))
}

/// The first index in `[from, end)` holding `c`, as `find_char_in`.
fn scan_char(s: &Vec<char>, from: usize, end: usize, c: char) -> (r: Option<usize>)
    requires
        from <= end,
        end <= s@.len(),
    ensures
        match r {
            Some(q) => find_char_in(s@, from as int, end as int, c) == Some(q as int) && from <= q
                < end && s@[q as int] == c,
            None => find_char_in(s@, from as int, end as int, c) is None,
        },
{
    let mut u: usize = from;
    while u < end
        invariant
            from <= u <= end <= s@.len(),
            find_char_in(s@, from as int, end as int, c) == find_char_in(
                s@,
                u as int,
                end as int,
                c,
            ),
        decreases end - u,
    {
        if s[u] == c {
            return Some(u);
        }
        u = u + 1;
    }
    None
}

/// The first whitespace position of `v`, as `find_ws_seq`.
fn scan_ws(v: &Vec<char>) -> (r: Option<usize>)
    ensures
        match r {
            Some(w) => find_ws_seq(v@, 0) == Some(w as int) && w < v@.len(),
            None => find_ws_seq(v@, 0) is None,
        },
{
    let mut u: usize = 0;
    while u < v.len()
        invariant
            u <= v@.len(),
            find_ws_seq(v@, 0) == find_ws_seq(v@, u as int),
        decreases v@.len() - u,
    {
        if ws(v[u]) {
            return Some(u);
        }
        u = u + 1;
    }
    None
}

/// Parses a block of markup into a token stack.  Never fails: whatever
/// does not form a recognised tag or comment stays as plain text, and
/// the source text of the buffer is kept exactly.
pub fn parse_html(html: &str) -> (r: Stack)
    ensures
        r@ == spec_parse_html(html@),
        r@.wf(),
        cursor_ok(r@),
        r@.source() == html@,
        r@.excludes == Seq::<usize>::empty(),
        r@.position == 0,
        r@.parent_position == 0,
{
    let chars = str_to_chars(html);
    let ghost s = html@;
    let mut stack = Stack::new(html);
    let n: usize = chars.len();
    proof {
        assert(stack@.code =~= seq![crate::stack::SegView::Text(s)]);
        assert(stack@.code.drop_first() =~= Seq::<crate::stack::SegView>::empty());
        assert(crate::stack::concat_srcs(Seq::<crate::stack::SegView>::empty()) == Seq::<
            char,
        >::empty());
        assert(stack@.source() =~= s);
    }

    // First pass: claim the comments.
    let copen: Vec<char> = vec!['<', '!', '-', '-'];
    let cclose: Vec<char> = vec!['-', '-', '>'];
    proof {
        assert(copen@ =~= comment_open());
        assert(cclose@ =~= comment_close());
    }
    let mut spans: Vec<(usize, usize)> = Vec::new();
    let mut i: usize = 0;
    loop
        invariant
            i <= n,
            n == s.len(),
            chars@ == s,
            copen@ == comment_open(),
            cclose@ == comment_close(),
            stack@.wf(),
            stack@.source() == s,
            stack@.position == 0,
            stack@.parent_position == 0,
            stack@.excludes == Seq::<usize>::empty(),
            push_comments(stack@, s, comment_spans(s, i as int)) == push_comments(
                spec_new(s),
                s,
                comment_spans(s, 0),
            ),
            spans_view(spans@) + comment_spans(s, i as int) == comment_spans(s, 0),
            forall|t: int|
                0 <= t < spans@.len() ==> (#[trigger] spans@[t]).0 < spans@[t].1 && spans@[t].1
                    <= n,
            forall|t: int|
                0 <= t < spans@.len() - 1 ==> (#[trigger] spans@[t]).1 <= spans@[t + 1].0,
            spans@.len() > 0 ==> spans@[spans@.len() - 1].1 <= i,
        ensures
            comment_spans(s, i as int) == Seq::<(int, int)>::empty(),
            i <= n,
            n == s.len(),
            chars@ == s,
            stack@.wf(),
            stack@.source() == s,
            stack@.position == 0,
            stack@.parent_position == 0,
            stack@.excludes == Seq::<usize>::empty(),
            stack@ == push_comments(spec_new(s), s, comment_spans(s, 0)),
            spans_view(spans@) == comment_spans(s, 0),
            forall|t: int|
                0 <= t < spans@.len() ==> (#[trigger] spans@[t]).0 < spans@[t].1 && spans@[t].1
                    <= n,
            forall|t: int|
                0 <= t < spans@.len() - 1 ==> (#[trigger] spans@[t]).1 <= spans@[t + 1].0,
        decreases n - i,
    {
        let p: usize = match find_sub(&chars, &copen, i) {
            None => {
                proof {
                    assert(spans_view(spans@) + Seq::<(int, int)>::empty() =~= spans_view(spans@));
                }
                break ;
            },
            Some(p) => p,
        };
        proof {
            crate::text::lemma_find_sub_from_some(s, comment_open(), i as int);
        }
        let q: usize = match find_sub(&chars, &cclose, p + 4) {
            None => {
                proof {
                    assert(spans_view(spans@) + Seq::<(int, int)>::empty() =~= spans_view(spans@));
                }
                break ;
            },
            Some(q) => q,
        };
        proof {
            crate::text::lemma_find_sub_from_some(s, comment_close(), p + 4);
            assert(q + 3 <= n);
            assert(bump(i as int, q + 3, n as int) == q + 3);
        }
        let text_v = copy_range(&chars, p, q + 3);
        let text_s = chars_to_string(&text_v);
        let ghost pre = stack@;
        stack.push("!", "", &true, text_s.as_str());
        let ghost old_spans = spans@;
        spans.push((p, q + 3));
        proof {
            reveal_strlit("!");
            reveal_strlit("");
            assert("!"@ =~= seq!['!']);
            assert(""@ =~= Seq::<char>::empty());
            assert(stack@ == spec_push(pre, seq!['!'], Seq::empty(), true, s.subrange(
                p as int,
                q + 3,
            )));
            lemma_push_source(pre, seq!['!'], Seq::empty(), true, s.subrange(p as int, q + 3));
            let ghost cs = comment_spans(s, i as int);
            assert(cs =~= seq![(p as int, q + 3)] + comment_spans(s, q + 3));
            assert(cs.len() > 0 && cs[0] == (p as int, q + 3));
            assert(cs.drop_first() =~= comment_spans(s, q + 3));
            assert(push_comments(pre, s, cs) == push_comments(stack@, s, comment_spans(s, q + 3)));
            assert(spans_view(spans@) =~= spans_view(old_spans).push((p as int, q + 3)));
            assert(spans_view(spans@) + comment_spans(s, q + 3) =~= spans_view(old_spans) + (seq![
                (p as int, q + 3),
            ] + comment_spans(s, q + 3)));
        }
        i = q + 3;
    }

    // Second pass: scan the text between the comments for tag spans.
    let ghost spansv = spans_view(spans@);
    let nspans: usize = spans.len();
    let mut k: usize = 0;
    let mut pos: usize = 0;
    proof {
        assert(spec_parse_html(s) == tag_scan(stack@, s, spansv, 0, 0));
    }
    loop
        invariant
            k <= nspans,
            nspans == spans@.len(),
            pos <= n,
            n == s.len(),
            chars@ == s,
            spansv == spans_view(spans@),
            stack@.wf(),
            stack@.source() == s,
            stack@.position == 0,
            stack@.parent_position == 0,
            stack@.excludes == Seq::<usize>::empty(),
            forall|t: int|
                0 <= t < spans@.len() ==> (#[trigger] spans@[t]).0 < spans@[t].1 && spans@[t].1
                    <= n,
            forall|t: int|
                0 <= t < spans@.len() - 1 ==> (#[trigger] spans@[t]).1 <= spans@[t + 1].0,
            k < nspans ==> pos <= spans@[k as int].0,
            spec_parse_html(s) == tag_scan(stack@, s, spansv, k as int, pos as int),
        ensures
            stack@.wf(),
            stack@.source() == s,
            stack@.position == 0,
            stack@.parent_position == 0,
            stack@.excludes == Seq::<usize>::empty(),
            spec_parse_html(s) == stack@,
        decreases nspans - k, n - pos,
    {
        let gend: usize = if k < nspans {
            spans[k].0
        } else {
            n
        };
        let q: usize = match scan_char(&chars, pos, gend, '<') {
            None => {
                if k < nspans {
                    let next_pos = spans[k].1;
                    proof {
                        assert(tag_scan(stack@, s, spansv, k as int, pos as int) == tag_scan(
                            stack@,
                            s,
                            spansv,
                            k as int + 1,
                            next_pos as int,
                        ));
                        if k as int + 1 < spansv.len() {
                            assert(spans@[k as int].1 <= spans@[k as int + 1].0);
                        }
                    }
                    pos = next_pos;
                    k = k + 1;
                    continue ;
                } else {
                    proof {
                        assert(tag_scan(stack@, s, spansv, k as int, pos as int) == stack@);
                    }
                    break ;
                }
            },
            Some(q) => q,
        };
        let r: usize = match scan_char(&chars, q + 1, gend, '>') {
            None => {
                if k < nspans {
                    let next_pos = spans[k].1;
                    proof {
                        assert(tag_scan(stack@, s, spansv, k as int, pos as int) == tag_scan(
                            stack@,
                            s,
                            spansv,
                            k as int + 1,
                            next_pos as int,
                        ));
                        if k as int + 1 < spansv.len() {
                            assert(spans@[k as int].1 <= spans@[k as int + 1].0);
                        }
                    }
                    pos = next_pos;
                    k = k + 1;
                    continue ;
                } else {
                    proof {
                        assert(tag_scan(stack@, s, spansv, k as int, pos as int) == stack@);
                    }
                    break ;
                }
            },
            Some(r) => r,
        };

        // Classify and apply the span `[q, r]`.
        let closing: bool = q + 1 < r && chars[q + 1] == '/';
        let a0: usize = if closing {
            q + 2
        } else {
            q + 1
        };
        let single: bool = a0 < r && chars[r - 1] == '/';
        let b0: usize = if single {
            r - 1
        } else {
            r
        };
        let interior = copy_range(&chars, a0, b0);
        let rest = trim_chars(&interior);
        proof {
            assert(rest@ == trim_ws(s.subrange(a0 as int, b0 as int)));
        }
        let ghost pre = stack@;
        if rest.len() > 0 && rest[0] == '!' {
            proof {
                assert(apply_span(pre, s, q as int, r as int) == pre);
            }
        } else {
            let text_v = copy_range(&chars, q, r + 1);
            let text_s = chars_to_string(&text_v);
            let (tag_v, attr_v) = match scan_ws(&rest) {
                Some(w) => {
                    let t = copy_range(&rest, 0, w);
                    let a = trim_chars(&copy_range(&rest, w + 1, rest.len()));
                    (t, a)
                },
                None => {
                    let t = copy_range(&rest, 0, rest.len());
                    proof {
                        assert(t@ =~= rest@);
                    }
                    (t, Vec::<char>::new())
                },
            };
            let tag_s = chars_to_string(&tag_v);
            let attr_s = chars_to_string(&attr_v);
            if closing {
                stack.close_tag(tag_s.as_str(), text_s.as_str());
                proof {
                    lemma_close_source(pre, tag_v@, s.subrange(q as int, r + 1));
                    assert(stack@ == apply_span(pre, s, q as int, r as int));
                }
            } else {
                stack.push(tag_s.as_str(), attr_s.as_str(), &single, text_s.as_str());
                proof {
                    lemma_push_source(pre, tag_v@, attr_v@, single, s.subrange(q as int, r + 1));
                    assert(stack@ == apply_span(pre, s, q as int, r as int));
                }
            }
        }
        proof {
            assert(bump(pos as int, r + 1, n as int) == r + 1);
            assert(tag_scan(pre, s, spansv, k as int, pos as int) == tag_scan(
                stack@,
                s,
                spansv,
                k as int,
                r + 1,
            ));
        }
        pos = r + 1;
    }
    stack
}

/// Parses an attribute-string into its key-to-value pairs, in mapping
/// order, and the leftover text that matched no pair.
pub fn parse_attr(attr_string: &str) -> (r: (Vec<(String, String)>, String))
    ensures
        string_pairs_view(r.0@) == spec_parse_attr(attr_string@).0,
        r.1@ == spec_parse_attr(attr_string@).1,
{
    let chars = str_to_chars(attr_string);
    let (pairs, extra) = crate::attr::parse_attr_chars(&chars);
    let mut out: Vec<(String, String)> = Vec::new();
    let mut i: usize = 0;
    while i < pairs.len()
        invariant
            i <= pairs@.len(),
            string_pairs_view(out@) == crate::text::pairs_view(pairs@).take(i as int),
        decreases pairs@.len() - i,
    {
        let key = chars_to_string(&pairs[i].0);
        let val = chars_to_string(&pairs[i].1);
        let ghost prev = out@;
        let ghost k0 = key@;
        let ghost v0 = val@;
        out.push((key, val));
        i = i + 1;
        proof {
            let x = out@.last();
            assert(out@ =~= prev.push(x));
            crate::text::lemma_string_pairs_view_push(prev, x);
            assert(x.0@ == k0 && x.1@ == v0);
            assert(crate::text::pairs_view(pairs@).take(i as int) =~= crate::text::pairs_view(
                pairs@,
            ).take(i - 1).push(crate::text::pairs_view(pairs@)[i - 1]));
            assert(string_pairs_view(out@) =~= crate::text::pairs_view(pairs@).take(i as int));
        }
    }
    proof {
        assert(crate::text::pairs_view(pairs@).take(pairs@.len() as int) =~= crate::text::pairs_view(
            pairs@,
        ));
    }
    (out, chars_to_string(&extra))
}


/// Round-trip: for an input whose parsed buffer pieces each render back
/// to their own source text -- well-balanced tags and comments in the
/// generated canonical form, with no edits applied -- rendering the
/// parsed document reproduces the input byte for byte.
pub proof fn lemma_parse_render_round_trip(s: Seq<char>)
    requires
        forall|k: int|
            0 <= k < spec_parse_html(s).code.len() ==> #[trigger] crate::stack::seg_faithful(
                spec_parse_html(s),
                spec_parse_html(s).code[k],
            ),
        spec_parse_html(s).source() == s,
    ensures
        crate::stack::spec_render(spec_parse_html(s)) == s,
{
    crate::stack::lemma_render_source(spec_parse_html(s));
}

} // verus!
