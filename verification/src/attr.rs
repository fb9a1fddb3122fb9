//! The attribute parser: turns the attribute-string of a tag into a
//! key-to-value mapping plus the leftover text that matched no `key=value`
//! pair.
//!
//! A pair is recognised wherever a run of key characters is followed by
//! `=` and a value of at least one character that ends at the first quote
//! or `#` terminator; a newline before the terminator, or a missing
//! terminator, makes the fragment fail to match, and it is folded into the
//! leftover text instead.  Surrounding quotes and whitespace are trimmed
//! from the value, later duplicate keys overwrite earlier ones, and the
//! matched spans are removed from the leftover text.
use crate::text::{
    copy_range, delim_char, find_sub_from, is_key_char, key_char, strip_front, strip_front_chars,
    trim_chars, trim_ws, pairs_view,
};
use vstd::prelude::*;

verus! {

/// The end of the run of key characters starting at `i`.
pub open spec fn key_run_end(s: Seq<char>, i: int) -> int
    decreases s.len() - i,
{
    if 0 <= i < s.len() && key_char(s[i]) {
        key_run_end(s, i + 1)
    } else {
        i
    }
}

/// The first value terminator at or after `t`: a quote or `#`, unless a
/// newline or the end of the text comes first.
pub open spec fn find_delim(s: Seq<char>, t: int) -> Option<int>
    decreases s.len() - t,
{
    if t < 0 || t >= s.len() {
        None
    } else if s[t] == '\n' {
        None
    } else if delim_char(s[t]) {
        Some(t)
    } else {
        find_delim(s, t + 1)
    }
}

/// The next scan position: past `k`, but always forward and never past `n`.
pub open spec fn bump(i: int, k: int, n: int) -> int {
    if k >= n {
        n
    } else if k > i {
        k
    } else {
        i + 1
    }
}

/// Every `key=value` match in `s` at or after `i`, in order, as
/// `(start, end of key, position of terminator)` triples.
pub open spec fn scan_attrs(s: Seq<char>, i: int) -> Seq<(int, int, int)>
    decreases s.len() - i,
{
    if i < 0 || i >= s.len() {
        Seq::empty()
    } else if !key_char(s[i]) {
        scan_attrs(s, i + 1)
    } else {
        let j = key_run_end(s, i);
        if j < s.len() && s[j] == '=' {
            if j + 1 < s.len() && s[j + 1] != '\n' {
                match find_delim(s, j + 2) {
                    Some(e) => seq![(i, j, e)] + scan_attrs(s, bump(i, e + 1, s.len() as int)),
                    None => scan_attrs(s, bump(i, j + 1, s.len() as int)),
                }
            } else {
                scan_attrs(s, bump(i, j + 1, s.len() as int))
            }
        } else {
            scan_attrs(s, bump(i, j, s.len() as int))
        }
    }
}

/// The key text of a match.
pub open spec fn attr_key(s: Seq<char>, m: (int, int, int)) -> Seq<char> {
    s.subrange(m.0, m.1)
}

/// The value text of a match: the raw span with leading quotes and
/// surrounding whitespace trimmed.
pub open spec fn attr_val(s: Seq<char>, m: (int, int, int)) -> Seq<char> {
    trim_ws(strip_front(strip_front(s.subrange(m.1 + 1, m.2), '\''), '"'))
}

/// The mapping updated with one pair: the first pair holding `k` is
/// replaced, else the pair is appended.
pub open spec fn attrs_put(
    attrs: Seq<(Seq<char>, Seq<char>)>,
    k: Seq<char>,
    v: Seq<char>,
) -> Seq<(Seq<char>, Seq<char>)>
    decreases attrs.len(),
{
    if attrs.len() == 0 {
        seq![(k, v)]
    } else if attrs[0].0 == k {
        seq![(k, v)] + attrs.drop_first()
    } else {
        seq![attrs[0]] + attrs_put(attrs.drop_first(), k, v)
    }
}

/// The mapping built from the matches in order, later keys overwriting.
pub open spec fn attrs_of(s: Seq<char>, ms: Seq<(int, int, int)>) -> Seq<(Seq<char>, Seq<char>)>
    decreases ms.len(),
{
    if ms.len() == 0 {
        Seq::empty()
    } else {
        attrs_put(attrs_of(s, ms.drop_last()), attr_key(s, ms.last()), attr_val(s, ms.last()))
    }
}

/// The text of `s` outside the matched spans, from `from` on.
pub open spec fn gaps(s: Seq<char>, ms: Seq<(int, int, int)>, from: int) -> Seq<char>
    decreases ms.len(),
{
    if ms.len() == 0 {
        if 0 <= from <= s.len() {
            s.subrange(from, s.len() as int)
        } else {
            Seq::empty()
        }
    } else {
        let piece = if 0 <= from <= ms[0].0 && ms[0].0 <= s.len() {
            s.subrange(from, ms[0].0)
        } else {
            Seq::empty()
        };
        piece + gaps(s, ms.drop_first(), ms[0].2 + 1)
    }
}

/// What the attribute parser returns for `s`: the mapping and the trimmed
/// leftover text.
pub open spec fn spec_parse_attr(s: Seq<char>) -> (Seq<(Seq<char>, Seq<char>)>, Seq<char>) {
    let ms = scan_attrs(s, 0);
    (attrs_of(s, ms), trim_ws(gaps(s, ms, 0)))
}

/// The matches as mathematical triples.
pub open spec fn m3(ms: Seq<(usize, usize, usize)>) -> Seq<(int, int, int)> {
    ms.map_values(|m: (usize, usize, usize)| (m.0 as int, m.1 as int, m.2 as int))
}

/// The end of the run of key characters starting at `i`, as `key_run_end`.
fn key_run_end_exec(s: &Vec<char>, i: usize) -> (j: usize)
    requires
        i <= s@.len(),
    ensures
        j == key_run_end(s@, i as int),
        i <= j <= s@.len(),
        j == s@.len() || !key_char(s@[j as int]),
{
    let mut j: usize = i;
    while j < s.len() && is_key_char(s[j])
        invariant
            i <= j <= s.len(),
            key_run_end(s@, i as int) == key_run_end(s@, j as int),
        decreases s@.len() - j,
    {
        j = j + 1;
    }
    j
}

/// The first value terminator at or after `t`, as `find_delim`.
fn find_delim_exec(s: &Vec<char>, t: usize) -> (r: Option<usize>)
    ensures
        match r {
            Some(e) => find_delim(s@, t as int) == Some(e as int) && t <= e < s@.len(),
            None => find_delim(s@, t as int) is None,
        },
{
    let mut u: usize = t;
    while u < s.len()
        invariant
            t <= u,
            find_delim(s@, t as int) == find_delim(s@, u as int),
        decreases s@.len() - u,
    {
        let c = s[u];
        if c == '\n' {
            return None;
        }
        if c == '"' || c == '\'' || c == '#' {
            return Some(u);
        }
        u = u + 1;
    }
    None
}

/// All `key=value` matches in `s`, in order, as `scan_attrs` from the
/// start of the text; the bounds of each match are returned as facts for
/// the callers that slice the text.
fn scan_attrs_exec(s: &Vec<char>) -> (ms: Vec<(usize, usize, usize)>)
    ensures
        m3(ms@) == scan_attrs(s@, 0),
        forall|k: int|
            0 <= k < ms@.len() ==> #[trigger] ms@[k].0 < ms@[k].1 && ms@[k].1 + 2 <= ms@[k].2
                && ms@[k].2 < s@.len(),
        forall|k: int| 0 <= k < ms@.len() - 1 ==> #[trigger] ms@[k].2 < ms@[k + 1].0,
{
    let mut ms: Vec<(usize, usize, usize)> = Vec::new();
    let n: usize = s.len();
    let mut i: usize = 0;
    while i < n
        invariant
            i <= n,
            n == s@.len(),
            scan_attrs(s@, 0) == m3(ms@) + scan_attrs(s@, i as int),
            forall|k: int|
                0 <= k < ms@.len() ==> #[trigger] ms@[k].0 < ms@[k].1 && ms@[k].1 + 2 <= ms@[k].2
                    && ms@[k].2 < s@.len(),
            forall|k: int| 0 <= k < ms@.len() - 1 ==> #[trigger] ms@[k].2 < ms@[k + 1].0,
            ms@.len() > 0 ==> ms@[ms@.len() - 1].2 < i,
        decreases n - i,
    {
        if !is_key_char(s[i]) {
            i = i + 1;
            continue;
        }
        let j: usize = key_run_end_exec(s, i);
        if j < n && s[j] == '=' {
            if j + 1 < n && s[j + 1] != '\n' {
                match find_delim_exec(s, j + 2) {
                    Some(e) => {
                        let ghost old_ms = ms@;
                        ms.push((i, j, e));
                        proof {
                            assert(m3(ms@) =~= m3(old_ms) + seq![
                                (i as int, j as int, e as int),
                            ]);
                            assert(m3(old_ms) + (seq![(i as int, j as int, e as int)]
                                + scan_attrs(s@, bump(i as int, e + 1, n as int))) =~= m3(ms@)
                                + scan_attrs(s@, bump(i as int, e + 1, n as int)));
                            assert(bump(i as int, e + 1, n as int) == e + 1);
                        }
                        i = e + 1;
                    },
                    None => {
                        proof {
                            assert(bump(i as int, j + 1, n as int) == j + 1);
                        }
                        i = j + 1;
                    },
                }
            } else {
                proof {
                    assert(bump(i as int, j + 1, n as int) == if j + 1 > n {
                        n as int
                    } else {
                        j + 1
                    });
                }
                if j + 1 > n {
                    i = n;
                } else {
                    i = j + 1;
                }
            }
        } else {
            proof {
                assert(bump(i as int, j as int, n as int) == if j == i {
                    i + 1
                } else {
                    j as int
                });
            }
            if j == i {
                i = i + 1;
            } else {
                i = j;
            }
        }
    }
    proof {
        assert(scan_attrs(s@, n as int) =~= Seq::<(int, int, int)>::empty());
        assert(m3(ms@) + Seq::<(int, int, int)>::empty() =~= m3(ms@));
    }
    ms
}

/// The first index holding key `k`, if any.
pub(crate) fn find_key(attrs: &Vec<(Vec<char>, Vec<char>)>, k: &Vec<char>) -> (r: Option<usize>)
    ensures
        match r {
            Some(idx) => idx < attrs@.len() && pairs_view(attrs@)[idx as int].0 == k@ && forall|
                j: int,
            | 0 <= j < idx ==> pairs_view(attrs@)[j].0 != k@,
            None => forall|j: int| 0 <= j < attrs@.len() ==> pairs_view(attrs@)[j].0 != k@,
        },
{
    let mut idx: usize = 0;
    while idx < attrs.len()
        invariant
            idx <= attrs@.len(),
            forall|j: int| 0 <= j < idx ==> pairs_view(attrs@)[j].0 != k@,
        decreases attrs@.len() - idx,
    {
        if crate::text::chars_eq(&attrs[idx].0, k) {
            return Some(idx);
        }
        idx = idx + 1;
    }
    None
}

/// `attrs_put` characterised by the first index of the key: an update in
/// place where the key exists, an appended pair where it does not.
proof fn lemma_attrs_put_at(attrs: Seq<(Seq<char>, Seq<char>)>, k: Seq<char>, v: Seq<char>, i: int)
    requires
        0 <= i <= attrs.len(),
        forall|j: int| 0 <= j < i ==> attrs[j].0 != k,
        i < attrs.len() ==> attrs[i].0 == k,
        i == attrs.len() ==> forall|j: int| 0 <= j < attrs.len() ==> attrs[j].0 != k,
    ensures
        i < attrs.len() ==> attrs_put(attrs, k, v) =~= attrs.update(i, (k, v)),
        i == attrs.len() ==> attrs_put(attrs, k, v) =~= attrs.push((k, v)),
    decreases attrs.len(),
{
    if attrs.len() == 0 {
    } else if attrs[0].0 == k {
        assert(i == 0);
        assert(seq![(k, v)] + attrs.drop_first() =~= attrs.update(0, (k, v)));
    } else {
        lemma_attrs_put_at(attrs.drop_first(), k, v, i - 1);
        if i < attrs.len() {
            assert(seq![attrs[0]] + attrs.drop_first().update(i - 1, (k, v)) =~= attrs.update(
                i,
                (k, v),
            ));
        } else {
            assert(seq![attrs[0]] + attrs.drop_first().push((k, v)) =~= attrs.push((k, v)));
        }
    }
}

/// Updates the mapping with one pair, as `attrs_put`.
pub(crate) fn attrs_put_exec(attrs: &mut Vec<(Vec<char>, Vec<char>)>, k: Vec<char>, v: Vec<char>)
    ensures
        pairs_view(final(attrs)@) == attrs_put(pairs_view(old(attrs)@), k@, v@),
{
    let ghost olda = pairs_view(attrs@);
    match find_key(attrs, &k) {
        Some(idx) => {
            proof {
                lemma_attrs_put_at(olda, k@, v@, idx as int);
            }
            attrs.set(idx, (k, v));
            proof {
                assert(pairs_view(attrs@) =~= olda.update(idx as int, (k@, v@)));
            }
        },
        None => {
            proof {
                lemma_attrs_put_at(olda, k@, v@, olda.len() as int);
            }
            attrs.push((k, v));
            proof {
                assert(pairs_view(attrs@) =~= olda.push((k@, v@)));
            }
        },
    }
}

/// Parses an attribute-string held as characters: the mapping and the
/// trimmed leftover, as `spec_parse_attr`.
pub fn parse_attr_chars(s: &Vec<char>) -> (r: (Vec<(Vec<char>, Vec<char>)>, Vec<char>))
    ensures
        pairs_view(r.0@) == spec_parse_attr(s@).0,
        r.1@ == spec_parse_attr(s@).1,
{
    let ms = scan_attrs_exec(s);
    let ghost msv = m3(ms@);

    // The mapping, built in match order.
    let mut attrs: Vec<(Vec<char>, Vec<char>)> = Vec::new();
    let mut k: usize = 0;
    while k < ms.len()
        invariant
            k <= ms@.len(),
            msv == m3(ms@),
            msv == scan_attrs(s@, 0),
            pairs_view(attrs@) == attrs_of(s@, msv.take(k as int)),
            forall|t: int|
                0 <= t < ms@.len() ==> #[trigger] ms@[t].0 < ms@[t].1 && ms@[t].1 + 2 <= ms@[t].2
                    && ms@[t].2 < s@.len(),
        decreases ms@.len() - k,
    {
        let m = ms[k];
        let key = copy_range(s, m.0, m.1);
        let raw = copy_range(s, m.1 + 1, m.2);
        let val = trim_chars(&strip_front_chars(&strip_front_chars(&raw, '\''), '"'));
        proof {
            assert(key@ == attr_key(s@, msv[k as int]));
            assert(val@ == attr_val(s@, msv[k as int]));
        }
        attrs_put_exec(&mut attrs, key, val);
        k = k + 1;
        proof {
            assert(msv.take(k as int).drop_last() =~= msv.take(k as int - 1));
            assert(msv.take(k as int).last() == msv[k as int - 1]);
        }
    }
    proof {
        assert(msv.take(msv.len() as int) =~= msv);
    }

    // The leftover text: the gaps between the matched spans.
    let mut extra: Vec<char> = Vec::new();
    let mut pos: usize = 0;
    let mut k2: usize = 0;
    while k2 < ms.len()
        invariant
            k2 <= ms@.len(),
            msv == m3(ms@),
            pos <= s@.len(),
            k2 < ms@.len() ==> pos <= ms@[k2 as int].0,
            k2 > 0 ==> pos == ms@[k2 as int - 1].2 + 1,
            k2 == 0 ==> pos == 0,
            extra@ + gaps(s@, msv.skip(k2 as int), pos as int) == gaps(s@, msv, 0),
            forall|t: int|
                0 <= t < ms@.len() ==> #[trigger] ms@[t].0 < ms@[t].1 && ms@[t].1 + 2 <= ms@[t].2
                    && ms@[t].2 < s@.len(),
            forall|t: int| 0 <= t < ms@.len() - 1 ==> #[trigger] ms@[t].2 < ms@[t + 1].0,
        decreases ms@.len() - k2,
    {
        let m = ms[k2];
        let piece = copy_range(s, pos, m.0);
        append_piece(&mut extra, &piece);
        proof {
            assert(msv.skip(k2 as int).drop_first() =~= msv.skip(k2 as int + 1));
            assert(gaps(s@, msv.skip(k2 as int), pos as int) == piece@ + gaps(
                s@,
                msv.skip(k2 as int + 1),
                m.2 + 1,
            ));
        }
        proof {
            assert(m.2 < s.len());
        }
        pos = m.2 + 1;
        k2 = k2 + 1;
    }
    proof {
        assert(msv.skip(msv.len() as int) =~= Seq::<(int, int, int)>::empty());
    }
    let tail = copy_range(s, pos, s.len());
    append_piece(&mut extra, &tail);
    let extra_trimmed = trim_chars(&extra);
    (attrs, extra_trimmed)
}

/// Appends one gap piece to the leftover text.
fn append_piece(dst: &mut Vec<char>, src: &Vec<char>)
    ensures
        final(dst)@ == old(dst)@ + src@,
{
    crate::text::append_chars(dst, src)
}

} // verus!
