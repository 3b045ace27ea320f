//! Character-sequence models shared by the catalogue: lexicographic order on
//! names, the final segment of a path, and the stem / extension split of a
//! file name.

use vstd::prelude::*;

verus! {

use vstd::relations::{sorted_by, total_ordering};

broadcast use {vstd::seq_lib::group_to_multiset_ensures, vstd::multiset::group_multiset_axioms};

// ---------------------------------------------------------------------------
// Lexicographic order on character sequences
// ---------------------------------------------------------------------------

/// `a` comes no later than `b` in case-sensitive lexicographic order, where
/// characters compare by their scalar values.
pub open spec fn lex_le(a: Seq<char>, b: Seq<char>) -> bool
    decreases a.len(),
{
    if a.len() == 0 {
        true
    } else if b.len() == 0 {
        false
    } else if (a[0] as int) < (b[0] as int) {
        true
    } else if (a[0] as int) > (b[0] as int) {
        false
    } else {
        lex_le(a.drop_first(), b.drop_first())
    }
}

/// The order above as a binary relation value.
pub open spec fn lex_le_fn() -> spec_fn(Seq<char>, Seq<char>) -> bool {
    |a: Seq<char>, b: Seq<char>| lex_le(a, b)
}

pub proof fn lemma_lex_le_refl(a: Seq<char>)
    ensures
        lex_le(a, a),
    decreases a.len(),
{
    if a.len() > 0 {
        lemma_lex_le_refl(a.drop_first());
    }
}

pub proof fn lemma_lex_le_total(a: Seq<char>, b: Seq<char>)
    ensures
        lex_le(a, b) || lex_le(b, a),
    decreases a.len(),
{
    if a.len() == 0 {
        assert(lex_le(a, b));
    } else if b.len() == 0 {
        assert(lex_le(b, a));
    } else if (a[0] as int) < (b[0] as int) {
        assert(lex_le(a, b));
    } else if (a[0] as int) > (b[0] as int) {
        assert(lex_le(b, a));
    } else {
        lemma_lex_le_total(a.drop_first(), b.drop_first());
        assert(lex_le(a, b) == lex_le(a.drop_first(), b.drop_first()));
        assert(lex_le(b, a) == lex_le(b.drop_first(), a.drop_first()));
    }
}

pub proof fn lemma_lex_le_antisym(a: Seq<char>, b: Seq<char>)
    requires
        lex_le(a, b),
        lex_le(b, a),
    ensures
        a == b,
    decreases a.len(),
{
    if a.len() == 0 {
        if b.len() > 0 {
            assert(!lex_le(b, a));
        }
        assert(a =~= b);
    } else {
        if b.len() == 0 {
            assert(!lex_le(a, b));
        }
        if (a[0] as int) < (b[0] as int) {
            assert(!lex_le(b, a));
        }
        if (a[0] as int) > (b[0] as int) {
            assert(!lex_le(a, b));
        }
        assert(a[0] == b[0]);
        assert(lex_le(a.drop_first(), b.drop_first()));
        assert(lex_le(b.drop_first(), a.drop_first()));
        lemma_lex_le_antisym(a.drop_first(), b.drop_first());
        assert(a =~= b) by {
            assert(a.drop_first() =~= b.drop_first());
            assert(forall|i: int| 1 <= i < a.len() ==> a[i] == a.drop_first()[i - 1]);
        }
    }
}

pub proof fn lemma_lex_le_trans(a: Seq<char>, b: Seq<char>, c: Seq<char>)
    requires
        lex_le(a, b),
        lex_le(b, c),
    ensures
        lex_le(a, c),
    decreases a.len(),
{
    if a.len() == 0 {
        assert(lex_le(a, c));
    } else {
        if b.len() == 0 {
            assert(!lex_le(a, b));
        }
        if c.len() == 0 {
            assert(!lex_le(b, c));
        }
        assert(b.len() > 0 && c.len() > 0);
        if (a[0] as int) < (c[0] as int) {
            assert(lex_le(a, c));
        } else if (a[0] as int) > (c[0] as int) {
            if (a[0] as int) > (b[0] as int) {
                assert(!lex_le(a, b));
            }
            if (b[0] as int) > (c[0] as int) {
                assert(!lex_le(b, c));
            }
            assert(false);
        } else {
            if (a[0] as int) > (b[0] as int) {
                assert(!lex_le(a, b));
            }
            if (b[0] as int) > (c[0] as int) {
                assert(!lex_le(b, c));
            }
            assert((a[0] as int) == (b[0] as int) && (b[0] as int) == (c[0] as int));
            assert(lex_le(a.drop_first(), b.drop_first()));
            assert(lex_le(b.drop_first(), c.drop_first()));
            lemma_lex_le_trans(a.drop_first(), b.drop_first(), c.drop_first());
            assert(lex_le(a, c) == lex_le(a.drop_first(), c.drop_first()));
        }
    }
}

/// Lexicographic order on character sequences is a total order.
pub proof fn lemma_lex_le_total_ordering()
    ensures
        total_ordering(lex_le_fn()),
{
    let leq = lex_le_fn();
    assert forall|a: Seq<char>| #[trigger] leq(a, a) by {
        lemma_lex_le_refl(a);
    }
    assert forall|a: Seq<char>, b: Seq<char>| #[trigger] leq(a, b) && #[trigger] leq(b, a)
        implies a == b by {
        lemma_lex_le_antisym(a, b);
    }
    assert forall|a: Seq<char>, b: Seq<char>, c: Seq<char>|
        #[trigger] leq(a, b) && #[trigger] leq(b, c) implies leq(a, c) by {
        lemma_lex_le_trans(a, b, c);
    }
    assert forall|a: Seq<char>, b: Seq<char>| #[trigger] leq(a, b) || #[trigger] leq(b, a) by {
        lemma_lex_le_total(a, b);
    }
}

/// Decides `lex_le` on string slices.
pub fn str_lex_le(a: &str, b: &str) -> (r: bool)
    ensures
        r == lex_le(a@, b@),
{
    let na = a.unicode_len();
    let nb = b.unicode_len();
    let mut i: usize = 0;
    proof {
        assert(a@.skip(0) =~= a@);
        assert(b@.skip(0) =~= b@);
    }
    loop
        invariant
            i <= na,
            i <= nb,
            na == a@.len(),
            nb == b@.len(),
            lex_le(a@, b@) == lex_le(a@.skip(i as int), b@.skip(i as int)),
        decreases na - i,
    {
        let ghost sa = a@.skip(i as int);
        let ghost sb = b@.skip(i as int);
        if i == na {
            proof {
                assert(sa.len() == 0);
            }
            return true;
        }
        if i == nb {
            proof {
                assert(sb.len() == 0 && sa.len() > 0);
            }
            return false;
        }
        let ca = a.get_char(i);
        let cb = b.get_char(i);
        proof {
            assert(sa[0] == a@[i as int]);
            assert(sb[0] == b@[i as int]);
            assert(((ca as u32) < (cb as u32)) == ((ca as int) < (cb as int)));
            assert(((ca as u32) > (cb as u32)) == ((ca as int) > (cb as int)));
        }
        if (ca as u32) < (cb as u32) {
            return true;
        }
        if (ca as u32) > (cb as u32) {
            return false;
        }
        proof {
            assert(a@.skip(i + 1) =~= sa.drop_first());
            assert(b@.skip(i + 1) =~= sb.drop_first());
        }
        i = i + 1;
    }
}

// ---------------------------------------------------------------------------
// The final segment of a path
// ---------------------------------------------------------------------------

/// The index just after the last `/` of `s`, or `0` when `s` has none.
pub open spec fn seg_start(s: Seq<char>) -> int
    decreases s.len(),
{
    if s.len() == 0 {
        0
    } else if s.last() == '/' {
        s.len() as int
    } else {
        seg_start(s.drop_last())
    }
}

pub proof fn lemma_seg_start_bounds(s: Seq<char>)
    ensures
        0 <= seg_start(s) <= s.len(),
    decreases s.len(),
{
    if s.len() > 0 && s.last() != '/' {
        lemma_seg_start_bounds(s.drop_last());
    }
}

/// What comes after the last `/` of `s`: the final path segment.
pub open spec fn last_segment(s: Seq<char>) -> Seq<char>
    recommends
        seg_start(s) <= s.len(),
{
    s.subrange(seg_start(s), s.len() as int)
}

/// A path names something only if its final segment is nonempty.  Trailing
/// separators are not stripped: a path ending in `/` has no final segment
/// here, where std's path handling would look further back.
pub open spec fn has_last_segment(s: Seq<char>) -> bool {
    seg_start(s) < s.len()
}

/// Finds `seg_start` of a string slice.
pub fn find_seg_start(s: &str) -> (i: usize)
    ensures
        i as int == seg_start(s@),
{
    let n = s.unicode_len();
    let mut i = n;
    proof {
        assert(s@.subrange(0, n as int) =~= s@);
    }
    while i > 0 && s.get_char(i - 1) != '/'
        invariant
            i <= n,
            n == s@.len(),
            seg_start(s@) == seg_start(s@.subrange(0, i as int)),
        decreases i,
    {
        proof {
            let t = s@.subrange(0, i as int);
            assert(t.last() == s@[i - 1]);
            assert(t.drop_last() =~= s@.subrange(0, i - 1));
        }
        i = i - 1;
    }
    proof {
        let t = s@.subrange(0, i as int);
        if i > 0 {
            assert(t.last() == s@[i - 1]);
        }
    }
    i
}

/// The final path segment of `s`, as a fresh string.
pub fn path_file_name(s: &str) -> (r: String)
    requires
        has_last_segment(s@),
    ensures
        r@ == last_segment(s@),
{
    proof {
        lemma_seg_start_bounds(s@);
    }
    let n = s.unicode_len();
    let i = find_seg_start(s);
    let sub = s.substring_char(i, n);
    sub.to_owned()
}

/// A name that can stand alone as one path segment: nonempty, with no
/// separator in it.  Names read out of a directory listing are of this form.
pub open spec fn plain_name(n: Seq<char>) -> bool {
    n.len() > 0 && forall|i: int| 0 <= i < n.len() ==> n[i] != '/'
}

/// Joining a plain name onto a base path with `/` makes the name the final
/// segment of the result.
pub proof fn lemma_last_segment_append(base: Seq<char>, name: Seq<char>)
    requires
        plain_name(name),
    ensures
        seg_start(base + "/"@ + name) == base.len() + 1,
        has_last_segment(base + "/"@ + name),
        last_segment(base + "/"@ + name) == name,
    decreases name.len(),
{
    reveal_strlit("/");
    let s = base + "/"@ + name;
    assert(s.len() == base.len() + 1 + name.len());
    if name.len() == 1 {
        assert(s.last() == name[0]);
        assert(s.last() != '/');
        assert(s.drop_last() =~= base + "/"@);
        assert((base + "/"@).last() == '/');
        assert(seg_start(base + "/"@) == base.len() + 1);
        assert(seg_start(s) == base.len() + 1);
        assert(last_segment(s) =~= name);
    } else {
        let name0 = name.drop_last();
        assert(plain_name(name0));
        lemma_last_segment_append(base, name0);
        assert(s.drop_last() =~= base + "/"@ + name0);
        assert(s.last() == name.last());
        assert(s.last() != '/');
        assert(seg_start(s) == seg_start(base + "/"@ + name0));
        assert(last_segment(s) =~= name);
    }
}

/// Decides whether two string slices read the same.
pub fn str_eq_check(a: &str, b: &str) -> (r: bool)
    ensures
        r == (a@ == b@),
{
    let le1 = str_lex_le(a, b);
    let le2 = str_lex_le(b, a);
    proof {
        if le1 && le2 {
            lemma_lex_le_antisym(a@, b@);
        }
        if a@ == b@ {
            lemma_lex_le_refl(a@);
        }
    }
    le1 && le2
}

// ---------------------------------------------------------------------------
// Stem and extension of a file name
// ---------------------------------------------------------------------------

/// The index of the dot separating stem from extension: the last `.` that is
/// not the leading character, or `-1` when there is none.  A name such as
/// `.profile` therefore has no extension, matching how paths are usually
/// read.
pub open spec fn split_dot(s: Seq<char>) -> int
    decreases s.len(),
{
    if s.len() <= 1 {
        -1
    } else if s.last() == '.' {
        s.len() - 1
    } else {
        split_dot(s.drop_last())
    }
}

pub proof fn lemma_split_dot_bounds(s: Seq<char>)
    ensures
        split_dot(s) == -1 || (1 <= split_dot(s) < s.len()),
    decreases s.len(),
{
    if s.len() > 1 && s.last() != '.' {
        lemma_split_dot_bounds(s.drop_last());
    }
}

/// The file name with its extension stripped.
pub open spec fn stem_of(s: Seq<char>) -> Seq<char> {
    if split_dot(s) >= 0 {
        s.subrange(0, split_dot(s))
    } else {
        s
    }
}

/// Whether the file name carries an extension at all.
pub open spec fn has_ext(s: Seq<char>) -> bool {
    split_dot(s) >= 0
}

/// The extension: what follows the split dot.
pub open spec fn ext_of(s: Seq<char>) -> Seq<char>
    recommends
        has_ext(s),
{
    s.subrange(split_dot(s) + 1, s.len() as int)
}

/// A name is eligible as an episode when its extension is exactly `mp3`,
/// compared case-sensitively.
pub open spec fn is_audio_name(s: Seq<char>) -> bool {
    has_ext(s) && ext_of(s) == "mp3"@
}

/// Finds the split dot of a string slice; returns `0` when there is none
/// (the split dot of a name is never at index `0`).
pub fn find_split_dot(s: &str) -> (i: usize)
    ensures
        i == 0 ==> split_dot(s@) == -1,
        i > 0 ==> i as int == split_dot(s@),
{
    let n = s.unicode_len();
    let mut i = n;
    proof {
        assert(s@.subrange(0, n as int) =~= s@);
    }
    while i > 1 && s.get_char(i - 1) != '.'
        invariant
            i <= n,
            n == s@.len(),
            split_dot(s@) == split_dot(s@.subrange(0, i as int)),
        decreases i,
    {
        proof {
            let t = s@.subrange(0, i as int);
            assert(t.last() == s@[i - 1]);
            assert(t.drop_last() =~= s@.subrange(0, i - 1));
        }
        i = i - 1;
    }
    if i <= 1 {
        proof {
            assert(s@.subrange(0, i as int).len() <= 1);
        }
        0
    } else {
        proof {
            let t = s@.subrange(0, i as int);
            assert(t.last() == s@[i - 1]);
        }
        i - 1
    }
}

/// The stem of a file name, as a fresh string.
pub fn file_stem(s: &str) -> (r: String)
    ensures
        r@ == stem_of(s@),
{
    proof {
        lemma_split_dot_bounds(s@);
    }
    let d = find_split_dot(s);
    if d == 0 {
        s.to_owned()
    } else {
        let sub = s.substring_char(0, d);
        sub.to_owned()
    }
}

/// Decides `is_audio_name` on a string slice.
pub fn is_audio_file_name(s: &str) -> (r: bool)
    ensures
        r == is_audio_name(s@),
{
    proof {
        lemma_split_dot_bounds(s@);
        reveal_strlit("mp3");
    }
    let n = s.unicode_len();
    let d = find_split_dot(s);
    if d == 0 {
        return false;
    }
    if n - d - 1 != 3 {
        proof {
            assert(ext_of(s@).len() != "mp3"@.len());
        }
        return false;
    }
    let c1 = s.get_char(d + 1);
    let c2 = s.get_char(d + 2);
    let c3 = s.get_char(d + 3);
    let r = c1 == 'm' && c2 == 'p' && c3 == '3';
    proof {
        let e = ext_of(s@);
        assert(e.len() == 3);
        assert(e[0] == s@[d + 1]);
        assert(e[1] == s@[d + 2]);
        assert(e[2] == s@[d + 3]);
        if r {
            assert(e =~= "mp3"@);
        } else {
            assert(e != "mp3"@);
        }
    }
    r
}

// ---------------------------------------------------------------------------
// Sorting names
// ---------------------------------------------------------------------------

/// The character sequences behind a sequence of strings.
pub open spec fn str_views(s: Seq<String>) -> Seq<Seq<char>> {
    s.map_values(|x: String| x@)
}

/// Sorts strings into ascending lexicographic order by insertion, keeping
/// exactly the elements given.
pub fn sort_strings(v: Vec<String>) -> (r: Vec<String>)
    ensures
        sorted_by(str_views(r@), lex_le_fn()),
        str_views(r@).to_multiset() == str_views(v@).to_multiset(),
{
    let ghost vg = v@;
    let mut src = v;
    let mut out: Vec<String> = Vec::new();
    while src.len() > 0
        invariant
            sorted_by(str_views(out@), lex_le_fn()),
            str_views(out@).to_multiset().add(str_views(src@).to_multiset()) == str_views(
                vg,
            ).to_multiset(),
        decreases src@.len(),
    {
        let ghost src0 = src@;
        let ghost out0 = out@;
        let x = src.remove(0);
        proof {
            assert(str_views(src@) =~= str_views(src0).remove(0));
            assert(str_views(src0)[0] == x@);
        }
        let mut j: usize = 0;
        while j < out.len() && str_lex_le(&out[j], &x)
            invariant
                j <= out@.len(),
                out@ == out0,
                forall|k: int| 0 <= k < j ==> lex_le(str_views(out@)[k], x@),
            decreases out@.len() - j,
        {
            j = j + 1;
        }
        proof {
            let ws = str_views(out@);
            let leq = lex_le_fn();
            assert forall|k: int| j <= k < ws.len() implies lex_le(x@, ws[k]) by {
                assert(ws[j as int] == out@[j as int]@);
                lemma_lex_le_total(ws[j as int], x@);
                if k > j {
                    assert(leq(ws[j as int], ws[k]));
                    lemma_lex_le_trans(x@, ws[j as int], ws[k]);
                }
            }
        }
        out.insert(j, x);
        proof {
            let w = str_views(out0);
            let u = str_views(out@);
            let sv0 = str_views(src0);
            let sv1 = str_views(src@);
            assert(u =~= w.insert(j as int, x@));
            assert(sv0[0] == x@);
            assert(sv0.contains(x@));
            assert(w.insert(j as int, x@).to_multiset() == w.to_multiset().insert(x@));
            assert(sv0.remove(0).to_multiset() == sv0.to_multiset().remove(sv0[0]));
            assert(u.to_multiset().add(sv1.to_multiset()) =~= str_views(vg).to_multiset());
            let leq = lex_le_fn();
            assert forall|m: int, n: int| 0 <= m < n < w.len() implies lex_le(w[m], w[n]) by {
                assert(leq(w[m], w[n]));
            }
            assert forall|p: int, q: int| 0 <= p < q < u.len() implies lex_le(u[p], u[q]) by {
                assert(forall|k: int| 0 <= k < j ==> u[k] == w[k]);
                assert(u[j as int] == x@);
                assert(forall|k: int| j < k < u.len() ==> u[k] == w[k - 1]);
                if p < j && q > j {
                    lemma_lex_le_trans(u[p], x@, u[q]);
                }
            }
            assert(sorted_by(u, lex_le_fn())) by {
                assert forall|m: int, n: int| 0 <= m < n < u.len() implies leq(u[m], u[n]) by {
                    assert(lex_le(u[m], u[n]));
                }
            }
        }
    }
    proof {
        let sv = str_views(src@);
        assert(sv =~= Seq::<Seq<char>>::empty());
        assert forall|y: Seq<char>| sv.to_multiset().count(y) == 0 by {
            if sv.to_multiset().count(y) > 0 {
                assert(sv.contains(y));
            }
        }
        assert(str_views(out@).to_multiset().add(sv.to_multiset()) =~= str_views(
            out@,
        ).to_multiset());
    }
    out
}


// ---------------------------------------------------------------------------
// Multiset transfer under map and filter
// ---------------------------------------------------------------------------

/// A filter that accepts every element changes nothing.
pub proof fn lemma_filter_all<A>(s: Seq<A>, pred: spec_fn(A) -> bool)
    requires
        forall|i: int| 0 <= i < s.len() ==> pred(#[trigger] s[i]),
    ensures
        s.filter(pred) == s,
    decreases s.len(),
{
    reveal(Seq::filter);
    if s.len() > 0 {
        lemma_filter_all(s.drop_last(), pred);
        assert(s.filter(pred) == s.drop_last().filter(pred).push(s.last()));
        assert(s.drop_last().push(s.last()) =~= s);
    }
}

/// Sequences with the same elements keep the same elements under `map_values`.
pub proof fn lemma_map_values_multiset<A, B>(s: Seq<A>, t: Seq<A>, f: spec_fn(A) -> B)
    requires
        s.to_multiset() == t.to_multiset(),
    ensures
        s.map_values(f).to_multiset() == t.map_values(f).to_multiset(),
    decreases s.len(),
{
    if s.len() == 0 {
        assert(s.to_multiset().len() == s.len());
        assert(t.to_multiset().len() == t.len());
        assert(t.len() == 0);
        assert(s.map_values(f) =~= Seq::<B>::empty());
        assert(t.map_values(f) =~= Seq::<B>::empty());
    } else {
        let n = s.len() as int - 1;
        let a = s[n];
        let s0 = s.drop_last();
        assert(s =~= s0.push(a));
        assert(s.to_multiset() == s0.to_multiset().insert(a));
        assert(s.to_multiset().count(a) > 0);
        assert(t.to_multiset().count(a) > 0);
        assert(t.contains(a));
        let j = choose|j: int| 0 <= j < t.len() && t[j] == a;
        let t1 = t.remove(j);
        assert(t1.to_multiset() == t.to_multiset().remove(a));
        assert(s0.to_multiset() =~= t1.to_multiset());
        lemma_map_values_multiset(s0, t1, f);
        assert(s.map_values(f) =~= s0.map_values(f).push(f(a)));
        assert(s.map_values(f).to_multiset() == s0.map_values(f).to_multiset().insert(f(a)));
        assert(t1.map_values(f) =~= t.map_values(f).remove(j));
        assert(t.map_values(f)[j] == f(a));
        assert(t.map_values(f).remove(j).to_multiset() == t.map_values(f).to_multiset().remove(
            f(a),
        ));
        assert(t.map_values(f).contains(f(a)));
        assert(t.map_values(f).to_multiset().count(f(a)) > 0);
        assert(s.map_values(f).to_multiset() =~= t.map_values(f).to_multiset());
    }
}

/// Sequences with the same elements keep the same elements under `filter`.
pub proof fn lemma_filter_multiset<A>(s: Seq<A>, t: Seq<A>, pred: spec_fn(A) -> bool)
    requires
        s.to_multiset() == t.to_multiset(),
    ensures
        s.filter(pred).to_multiset() == t.filter(pred).to_multiset(),
    decreases s.len(),
{
    reveal(Seq::filter);
    if s.len() == 0 {
        assert(s.to_multiset().len() == s.len());
        assert(t.to_multiset().len() == t.len());
        assert(t.len() == 0);
        assert(s.filter(pred) =~= Seq::<A>::empty());
        assert(t.filter(pred) =~= Seq::<A>::empty());
    } else {
        let n = s.len() as int - 1;
        let a = s[n];
        let s0 = s.drop_last();
        assert(s =~= s0.push(a));
        assert(s.to_multiset() == s0.to_multiset().insert(a));
        assert(s.to_multiset().count(a) > 0);
        assert(t.to_multiset().count(a) > 0);
        assert(t.contains(a));
        let j = choose|j: int| 0 <= j < t.len() && t[j] == a;
        let t1 = t.remove(j);
        assert(t1.to_multiset() == t.to_multiset().remove(a));
        assert(s0.to_multiset() =~= t1.to_multiset());
        lemma_filter_multiset(s0, t1, pred);
        // s side: filter of a push.
        assert(s.drop_last() == s0 && s.last() == a);
        if pred(a) {
            assert(s.filter(pred) == s0.filter(pred).push(a));
            assert(s.filter(pred).to_multiset() == s0.filter(pred).to_multiset().insert(a));
        } else {
            assert(s.filter(pred) == s0.filter(pred));
        }
        // t side: split around position j.
        let tl = t.subrange(0, j);
        let tm = seq![a];
        let tr = t.subrange(j + 1, t.len() as int);
        assert(t =~= tl + tm + tr);
        assert(t1 =~= tl + tr);
        Seq::filter_distributes_over_add(tl + tm, tr, pred);
        Seq::filter_distributes_over_add(tl, tm, pred);
        Seq::filter_distributes_over_add(tl, tr, pred);
        assert(tm.drop_last() =~= Seq::<A>::empty());
        assert(tm.len() == 1 && tm.last() == a);
        assert(tm.drop_last().filter(pred) =~= Seq::<A>::empty());
        if pred(a) {
            assert(tm.filter(pred) =~= tm.drop_last().filter(pred).push(a));
            assert(tm.filter(pred) =~= seq![a]);
        } else {
            assert(tm.filter(pred) =~= Seq::<A>::empty());
        }
        assert((tl + tm + tr).filter(pred) =~= tl.filter(pred) + tm.filter(pred) + tr.filter(
            pred,
        ));
        assert((tl + tr).filter(pred) =~= tl.filter(pred) + tr.filter(pred));
        vstd::seq_lib::lemma_multiset_commutative(tl.filter(pred) + tm.filter(pred), tr.filter(pred));
        vstd::seq_lib::lemma_multiset_commutative(tl.filter(pred), tm.filter(pred));
        vstd::seq_lib::lemma_multiset_commutative(tl.filter(pred), tr.filter(pred));
        assert(t.filter(pred).to_multiset() =~= s.filter(pred).to_multiset());
    }
}

} // verus!
