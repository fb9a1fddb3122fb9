//! Character-sequence utilities shared by the tokenizer, the attribute
//! parser, the query layer and the renderers: equality, substring search,
//! whitespace trimming, and conversions between `&str`/`String` and the
//! `Vec<char>` buffers the library works on internally.
use vstd::prelude::*;

verus! {

/// ASCII whitespace, the separators recognised inside tags and attributes.
pub open spec fn ws_char(c: char) -> bool {
    c == ' ' || c == '\t' || c == '\n' || c == '\r'
}

/// Characters allowed in an attribute key: letters, digits, `_` and `-`.
pub open spec fn key_char(c: char) -> bool {
    ('a' as u32 <= c as u32 && c as u32 <= 'z' as u32) || ('A' as u32 <= c as u32 && c as u32
        <= 'Z' as u32) || ('0' as u32 <= c as u32 && c as u32 <= '9' as u32) || c == '_' || c == '-'
}

/// Whether `c` may stand in an attribute key, as `key_char`.
pub fn is_key_char(c: char) -> (r: bool)
    ensures
        r == key_char(c),
{
    let u = c as u32;
    ('a' as u32 <= u && u <= 'z' as u32) || ('A' as u32 <= u && u <= 'Z' as u32) || ('0' as u32 <= u
        && u <= '9' as u32) || c == '_' || c == '-'
}

/// Characters that terminate an attribute value.
pub open spec fn delim_char(c: char) -> bool {
    c == '"' || c == '\'' || c == '#'
}

/// Index of the first occurrence of `pat` in `s` at or after `i`.
pub open spec fn find_sub_from(s: Seq<char>, pat: Seq<char>, i: int) -> Option<int>
    decreases s.len() - i,
{
    if i + pat.len() > s.len() {
        None
    } else if pat.len() == 0 {
        Some(i)
    } else if s.subrange(i, i + pat.len() as int) == pat {
        Some(i)
    } else {
        find_sub_from(s, pat, i + 1)
    }
}

/// What a found occurrence means: it lies at or after the start position
/// and the slice there equals the pattern.
pub proof fn lemma_find_sub_from_some(s: Seq<char>, pat: Seq<char>, from: int)
    requires
        0 <= from,
    ensures
        match find_sub_from(s, pat, from) {
            Some(j) => from <= j && j + pat.len() <= s.len() && s.subrange(
                j,
                j + pat.len() as int,
            ) == pat,
            None => true,
        },
    decreases s.len() - from,
{
    if from + pat.len() > s.len() {
    } else if pat.len() == 0 {
        assert(s.subrange(from, from) =~= pat);
    } else if s.subrange(from, from + pat.len() as int) == pat {
    } else {
        lemma_find_sub_from_some(s, pat, from + 1);
    }
}

/// Whether `pat` occurs anywhere in `s`.
pub open spec fn contains_sub(s: Seq<char>, pat: Seq<char>) -> bool {
    find_sub_from(s, pat, 0) is Some
}

/// `needle` stands at `i` in `s` bounded by whitespace or the ends of `s`:
/// the membership test used for `class` attribute queries.
pub open spec fn seg_match_at(s: Seq<char>, needle: Seq<char>, i: int) -> bool {
    &&& 0 <= i
    &&& i + needle.len() <= s.len()
    &&& s.subrange(i, i + needle.len() as int) == needle
    &&& (i == 0 || ws_char(s[i - 1]))
    &&& (i + needle.len() == s.len() || ws_char(s[i + needle.len() as int]))
}

/// Whitespace-separated membership: some whitespace-bounded slice of `s`
/// equals `needle`.
pub open spec fn has_segment(s: Seq<char>, needle: Seq<char>) -> bool {
    exists|i: int| seg_match_at(s, needle, i)
}

/// `s` with leading whitespace removed.
pub open spec fn trim_front(s: Seq<char>) -> Seq<char>
    decreases s.len(),
{
    if s.len() > 0 && ws_char(s[0]) {
        trim_front(s.drop_first())
    } else {
        s
    }
}

/// `s` with trailing whitespace removed.
pub open spec fn trim_back(s: Seq<char>) -> Seq<char>
    decreases s.len(),
{
    if s.len() > 0 && ws_char(s[s.len() - 1]) {
        trim_back(s.drop_last())
    } else {
        s
    }
}

/// `s` with whitespace removed from both ends.
pub open spec fn trim_ws(s: Seq<char>) -> Seq<char> {
    trim_back(trim_front(s))
}

/// `s` with every leading copy of `c` removed.
pub open spec fn strip_front(s: Seq<char>, c: char) -> Seq<char>
    decreases s.len(),
{
    if s.len() > 0 && s[0] == c {
        strip_front(s.drop_first(), c)
    } else {
        s
    }
}

/// Whether `c` is ASCII whitespace, as `ws_char`.
pub fn ws(c: char) -> (r: bool)
    ensures
        r == ws_char(c),
{
    c == ' ' || c == '\t' || c == '\n' || c == '\r'
}

/// The characters of `s`, one by one.
pub fn str_to_chars(s: &str) -> (r: Vec<char>)
    ensures
        r@ == s@,
{
    let n: usize = s.unicode_len();
    let mut r: Vec<char> = Vec::new();
    let mut i: usize = 0;
    while i < n
        invariant
            i <= n,
            n == s@.len(),
            r@ == s@.take(i as int),
        decreases n - i,
    {
        r.push(s.get_char(i));
        i = i + 1;
        proof {
            assert(r@ =~= s@.take(i as int));
        }
    }
    proof {
        assert(r@ =~= s@);
    }
    r
}

/// Relies on `String::push`: appends exactly the given character.
#[verifier::external_body]
fn push_char(s: &mut String, c: char)
    ensures
        final(s)@ == old(s)@.push(c),
{
    s.push(c)
}

/// A `String` holding exactly the characters of `v`.
pub fn chars_to_string(v: &Vec<char>) -> (r: String)
    ensures
        r@ == v@,
{
    let mut r: String = String::new();
    let mut i: usize = 0;
    while i < v.len()
        invariant
            i <= v@.len(),
            r@ == v@.take(i as int),
        decreases v@.len() - i,
    {
        push_char(&mut r, v[i]);
        i = i + 1;
        proof {
            assert(r@ =~= v@.take(i as int));
        }
    }
    proof {
        assert(r@ =~= v@);
    }
    r
}

/// Character-for-character equality of two buffers.
pub fn chars_eq(a: &Vec<char>, b: &Vec<char>) -> (r: bool)
    ensures
        r == (a@ == b@),
{
    if a.len() != b.len() {
        proof {
            assert(a@ != b@);
        }
        return false;
    }
    let mut i: usize = 0;
    while i < a.len()
        invariant
            i <= a@.len(),
            a@.len() == b@.len(),
            forall|k: int| 0 <= k < i ==> a@[k] == b@[k],
        decreases a@.len() - i,
    {
        if a[i] != b[i] {
            return false;
        }
        i = i + 1;
    }
    proof {
        assert(a@ =~= b@);
    }
    true
}

/// A fresh copy of `v[from..to]`.
pub fn copy_range(v: &Vec<char>, from: usize, to: usize) -> (r: Vec<char>)
    requires
        from <= to <= v@.len(),
    ensures
        r@ == v@.subrange(from as int, to as int),
{
    let mut r: Vec<char> = Vec::new();
    let mut i: usize = from;
    while i < to
        invariant
            from <= i <= to <= v@.len(),
            r@ == v@.subrange(from as int, i as int),
        decreases to - i,
    {
        r.push(v[i]);
        i = i + 1;
        proof {
            assert(r@ =~= v@.subrange(from as int, i as int));
        }
    }
    r
}

/// Appends all of `src` to `dst`.
pub fn append_chars(dst: &mut Vec<char>, src: &Vec<char>)
    ensures
        final(dst)@ == old(dst)@ + src@,
{
    let mut i: usize = 0;
    while i < src.len()
        invariant
            i <= src@.len(),
            dst@ == old(dst)@ + src@.take(i as int),
        decreases src@.len() - i,
    {
        dst.push(src[i]);
        i = i + 1;
        proof {
            assert(dst@ =~= old(dst)@ + src@.take(i as int));
        }
    }
    proof {
        assert(dst@ =~= old(dst)@ + src@);
    }
}

/// Whether `pat` stands at position `i` of `s`.
pub fn starts_at(s: &Vec<char>, i: usize, pat: &Vec<char>) -> (r: bool)
    requires
        i <= s@.len(),
    ensures
        r == (i + pat@.len() <= s@.len() && s@.subrange(
            i as int,
            i + pat@.len() as int,
        ) == pat@),
{
    if pat.len() > s.len() - i {
        return false;
    }
    let mut k: usize = 0;
    while k < pat.len()
        invariant
            k <= pat.len(),
            i + pat.len() <= s.len(),
            forall|t: int| 0 <= t < k ==> s@[i + t] == pat@[t],
        decreases pat@.len() - k,
    {
        if s[i + k] != pat[k] {
            proof {
                assert(s@.subrange(i as int, i + pat@.len() as int)[k as int] != pat@[k as int]);
            }
            return false;
        }
        k = k + 1;
    }
    proof {
        assert(s@.subrange(i as int, i + pat@.len() as int) =~= pat@);
    }
    true
}

/// First occurrence of `pat` in `s` at or after `from`, as `find_sub_from`.
pub fn find_sub(s: &Vec<char>, pat: &Vec<char>, from: usize) -> (r: Option<usize>)
    requires
        from <= s@.len(),
    ensures
        match r {
            Some(j) => from <= j && find_sub_from(s@, pat@, from as int) == Some(j as int),
            None => find_sub_from(s@, pat@, from as int) is None,
        },
{
    if pat.len() > s.len() {
        return None;
    }
    if pat.len() == 0 {
        return Some(from);
    }
    let limit: usize = s.len() - pat.len();
    if from > limit {
        return None;
    }
    let mut i: usize = from;
    loop
        invariant
            from <= i <= limit,
            pat.len() >= 1,
            limit + pat.len() == s.len(),
            find_sub_from(s@, pat@, from as int) == find_sub_from(s@, pat@, i as int),
        ensures
            find_sub_from(s@, pat@, from as int) is None,
        decreases limit - i,
    {
        if starts_at(s, i, pat) {
            return Some(i);
        }
        if i == limit {
            proof {
                assert(find_sub_from(s@, pat@, limit + 1) is None);
            }
            break;
        }
        i = i + 1;
    }
    None
}

/// Whether `pat` occurs in `s`, as `contains_sub`.
pub fn contains_chars(s: &Vec<char>, pat: &Vec<char>) -> (r: bool)
    ensures
        r == contains_sub(s@, pat@),
{
    match find_sub(s, pat, 0) {
        Some(_) => true,
        None => false,
    }
}

/// Whether `needle` is a whitespace-separated segment of `s`, as
/// `has_segment`.
pub fn has_segment_exec(s: &Vec<char>, needle: &Vec<char>) -> (r: bool)
    ensures
        r == has_segment(s@, needle@),
{
    if needle.len() > s.len() {
        return false;
    }
    let limit: usize = s.len() - needle.len();
    let mut i: usize = 0;
    loop
        invariant
            i <= limit,
            limit + needle.len() == s.len(),
            forall|k: int| 0 <= k < i ==> !seg_match_at(s@, needle@, k),
        ensures
            !has_segment(s@, needle@),
        decreases limit - i,
    {
        let left_ok: bool = i == 0 || ws(s[i - 1]);
        let right_ok: bool = i + needle.len() == s.len() || ws(s[i + needle.len()]);
        if left_ok && right_ok && starts_at(s, i, needle) {
            proof {
                assert(seg_match_at(s@, needle@, i as int));
            }
            return true;
        }
        proof {
            assert(!seg_match_at(s@, needle@, i as int));
        }
        if i == limit {
            proof {
                assert(forall|k: int| seg_match_at(s@, needle@, k) ==> 0 <= k <= limit);
            }
            break;
        }
        i = i + 1;
    }
    false
}

/// `s` trimmed of surrounding whitespace, as `trim_ws`.
pub fn trim_chars(s: &Vec<char>) -> (r: Vec<char>)
    ensures
        r@ == trim_ws(s@),
{
    proof {
        assert(s@.skip(0) =~= s@);
    }
    let mut lo: usize = 0;
    while lo < s.len() && ws(s[lo])
        invariant
            lo <= s@.len(),
            trim_front(s@) == trim_front(s@.skip(lo as int)),
        decreases s@.len() - lo,
    {
        proof {
            assert(s@.skip(lo as int).drop_first() =~= s@.skip(lo as int + 1));
        }
        lo = lo + 1;
    }
    proof {
        assert(trim_front(s@.skip(lo as int)) == s@.skip(lo as int));
    }
    let mut hi: usize = s.len();
    proof {
        assert(s@.subrange(lo as int, s@.len() as int) =~= s@.skip(lo as int));
    }
    while hi > lo && ws(s[hi - 1])
        invariant
            lo <= hi <= s@.len(),
            trim_front(s@) == s@.skip(lo as int),
            trim_back(s@.skip(lo as int)) == trim_back(s@.subrange(lo as int, hi as int)),
        decreases hi,
    {
        proof {
            assert(s@.subrange(lo as int, hi as int).drop_last() =~= s@.subrange(
                lo as int,
                hi as int - 1,
            ));
        }
        hi = hi - 1;
    }
    proof {
        assert(trim_back(s@.subrange(lo as int, hi as int)) == s@.subrange(lo as int, hi as int));
    }
    copy_range(s, lo, hi)
}

/// `s` with every leading copy of `c` removed, as `strip_front`.
pub fn strip_front_chars(s: &Vec<char>, c: char) -> (r: Vec<char>)
    ensures
        r@ == strip_front(s@, c),
{
    proof {
        assert(s@.skip(0) =~= s@);
    }
    let mut lo: usize = 0;
    while lo < s.len() && s[lo] == c
        invariant
            lo <= s@.len(),
            strip_front(s@, c) == strip_front(s@.skip(lo as int), c),
        decreases s@.len() - lo,
    {
        proof {
            assert(s@.skip(lo as int).drop_first() =~= s@.skip(lo as int + 1));
        }
        lo = lo + 1;
    }
    proof {
        assert(strip_front(s@.skip(lo as int), c) == s@.skip(lo as int));
    }
    copy_range(s, lo, s.len())
}

/// The mathematical value of a list of key/value character buffers.
pub open spec fn pairs_view(a: Seq<(Vec<char>, Vec<char>)>) -> Seq<(Seq<char>, Seq<char>)> {
    a.map_values(|p: (Vec<char>, Vec<char>)| (p.0@, p.1@))
}

/// The mathematical value of a list of key/value strings.
pub open spec fn string_pairs_view(a: Seq<(String, String)>) -> Seq<(Seq<char>, Seq<char>)> {
    a.map_values(|p: (String, String)| (p.0@, p.1@))
}

/// Appending a pair of buffers appends its mathematical value.
pub proof fn lemma_pairs_view_push(a: Seq<(Vec<char>, Vec<char>)>, p: (Vec<char>, Vec<char>))
    ensures
        pairs_view(a.push(p)) =~= pairs_view(a).push((p.0@, p.1@)),
{
    assert forall|t: int| 0 <= t < a.len() + 1 implies #[trigger] pairs_view(a.push(p))[t]
        == pairs_view(a).push((p.0@, p.1@))[t] by {
        if t < a.len() {
            assert(a.push(p)[t] == a[t]);
        } else {
            assert(a.push(p)[t] == p);
        }
    }
}

/// Appending a pair of strings appends its mathematical value.
pub proof fn lemma_string_pairs_view_push(a: Seq<(String, String)>, p: (String, String))
    ensures
        string_pairs_view(a.push(p)) =~= string_pairs_view(a).push((p.0@, p.1@)),
{
    assert forall|t: int| 0 <= t < a.len() + 1 implies #[trigger] string_pairs_view(a.push(p))[t]
        == string_pairs_view(a).push((p.0@, p.1@))[t] by {
        if t < a.len() {
            assert(a.push(p)[t] == a[t]);
        } else {
            assert(a.push(p)[t] == p);
        }
    }
}

/// Whether the id `x` occurs in `v`.
pub fn contains_id(v: &Vec<usize>, x: usize) -> (r: bool)
    ensures
        r == v@.contains(x),
{
    let mut i: usize = 0;
    while i < v.len()
        invariant
            i <= v@.len(),
            forall|k: int| 0 <= k < i ==> v@[k] != x,
        decreases v@.len() - i,
    {
        if v[i] == x {
            return true;
        }
        i = i + 1;
    }
    false
}

} // verus!
