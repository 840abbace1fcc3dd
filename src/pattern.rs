//! Ignore-file style path patterns: `*` within a segment, `**` across
//! segments, a leading `/` anchors at the root, a trailing `/` matches
//! directories only, and a pattern that names a directory covers what is in it.
use vstd::prelude::*;

verus! {

/// The `/`-separated segments of `s`, empty segments kept.
pub open spec fn split_segments(s: Seq<char>) -> Seq<Seq<char>>
    decreases s.len(),
{
    if s.len() == 0 {
        seq![Seq::empty()]
    } else {
        let rest = split_segments(s.drop_last());
        if s.last() == '/' {
            rest.push(Seq::empty())
        } else {
            rest.update(rest.len() - 1, rest.last().push(s.last()))
        }
    }
}

/// Whether the segment `s` matches the segment pattern `p`, where `*` stands
/// for any run of characters.
pub open spec fn glob_segment(p: Seq<char>, s: Seq<char>) -> bool
    decreases p.len(), s.len(),
{
    if p.len() == 0 {
        s.len() == 0
    } else if p[0] == '*' {
        glob_segment(p.drop_first(), s) || (s.len() > 0 && glob_segment(p, s.drop_first()))
    } else {
        s.len() > 0 && s[0] == p[0] && glob_segment(p.drop_first(), s.drop_first())
    }
}

pub open spec fn is_double_star(p: Seq<char>) -> bool {
    p.len() == 2 && p[0] == '*' && p[1] == '*'
}

/// Whether the pattern segments `ps` match the leading segments of `ss`.
/// A `**` segment stands for any number of segments. What is left of `ss`
/// lies inside the matched directory; with `dir_only` something must be left.
pub open spec fn match_segments(ps: Seq<Seq<char>>, ss: Seq<Seq<char>>, dir_only: bool) -> bool
    decreases ps.len(), ss.len(),
{
    if ps.len() == 0 {
        !dir_only || ss.len() > 0
    } else if is_double_star(ps[0]) {
        match_segments(ps.drop_first(), ss, dir_only) || (ss.len() > 0 && match_segments(
            ps,
            ss.drop_first(),
            dir_only,
        ))
    } else {
        ss.len() > 0 && glob_segment(ps[0], ss[0]) && match_segments(
            ps.drop_first(),
            ss.drop_first(),
            dir_only,
        )
    }
}

/// Whether the pattern segments match starting at some segment of `ss`.
pub open spec fn match_at_any_depth(ps: Seq<Seq<char>>, ss: Seq<Seq<char>>, dir_only: bool) -> bool
    decreases ss.len(),
{
    match_segments(ps, ss, dir_only) || (ss.len() > 0 && match_at_any_depth(
        ps,
        ss.drop_first(),
        dir_only,
    ))
}

/// Whether a pattern starts with `/`, which anchors it at the root.
pub open spec fn is_anchored(pattern: Seq<char>) -> bool {
    pattern.len() > 0 && pattern[0] == '/'
}

/// Whether a pattern ends with `/` (after its anchor), which makes it match
/// directories only.
pub open spec fn is_dir_only(pattern: Seq<char>) -> bool {
    let a: int = if is_anchored(pattern) {
        1
    } else {
        0
    };
    pattern.len() > a && pattern[pattern.len() - 1] == '/'
}

/// The pattern without its leading and trailing `/`.
pub open spec fn pattern_body(pattern: Seq<char>) -> Seq<char> {
    let a: int = if is_anchored(pattern) {
        1
    } else {
        0
    };
    let e: int = if is_dir_only(pattern) {
        pattern.len() - 1
    } else {
        pattern.len() as int
    };
    pattern.subrange(a, e)
}

/// Whether `path` matches `pattern`.
pub open spec fn pattern_matches(path: Seq<char>, pattern: Seq<char>) -> bool {
    let ps = split_segments(pattern_body(pattern));
    let ss = split_segments(path);
    if is_anchored(pattern) {
        match_segments(ps, ss, is_dir_only(pattern))
    } else {
        match_at_any_depth(ps, ss, is_dir_only(pattern))
    }
}

pub open spec fn seg_views(v: Seq<Vec<char>>) -> Seq<Seq<char>> {
    v.map_values(|x: Vec<char>| x@)
}

/// Splits `s` at each `/`.
pub fn split_on_slash(s: &Vec<char>) -> (r: Vec<Vec<char>>)
    ensures
        seg_views(r@) == split_segments(s@),
{
    let mut segs: Vec<Vec<char>> = Vec::new();
    let mut cur: Vec<char> = Vec::new();
    let mut i: usize = 0;
    assert(s@.take(0) == Seq::<char>::empty());
    assert(seg_views(segs@).push(cur@) == split_segments(s@.take(0)));
    while i < s.len()
        invariant
            i <= s@.len(),
            seg_views(segs@).push(cur@) == split_segments(s@.take(i as int)),
        decreases s@.len() - i,
    {
        let ghost prev = seg_views(segs@);
        let ghost prev_cur = cur@;
        assert(s@.take(i + 1).drop_last() == s@.take(i as int));
        assert(s@.take(i + 1).last() == s@[i as int]);
        if s[i] == '/' {
            segs.push(cur);
            cur = Vec::new();
            assert(seg_views(segs@) == prev.push(prev_cur));
        } else {
            cur.push(s[i]);
            assert(seg_views(segs@).push(cur@) == prev.push(prev_cur).update(
                prev.len() as int,
                prev_cur.push(s@[i as int]),
            ));
        }
        i = i + 1;
    }
    let ghost prev = seg_views(segs@);
    segs.push(cur);
    assert(s@.take(s@.len() as int) == s@);
    assert(seg_views(segs@) == prev.push(cur@));
    segs
}

/// Whether `s[si..]` matches the segment pattern `p[pi..]`.
fn glob_from(p: &Vec<char>, pi: usize, s: &Vec<char>, si: usize) -> (r: bool)
    requires
        pi <= p@.len(),
        si <= s@.len(),
    ensures
        r == glob_segment(p@.skip(pi as int), s@.skip(si as int)),
    decreases p@.len() - pi, s@.len() - si,
{
    proof {
        if pi < p@.len() {
            assert(p@.skip(pi as int).drop_first() == p@.skip(pi + 1));
        }
        if si < s@.len() {
            assert(s@.skip(si as int).drop_first() == s@.skip(si + 1));
        }
    }
    if pi == p.len() {
        return si == s.len();
    }
    if p[pi] == '*' {
        if glob_from(p, pi + 1, s, si) {
            return true;
        }
        return si < s.len() && glob_from(p, pi, s, si + 1);
    }
    si < s.len() && s[si] == p[pi] && glob_from(p, pi + 1, s, si + 1)
}

fn is_double_star_exec(p: &Vec<char>) -> (r: bool)
    ensures
        r == is_double_star(p@),
{
    p.len() == 2 && p[0] == '*' && p[1] == '*'
}

/// Whether the segments `ss[si..]` match the pattern segments `ps[pi..]`.
fn segments_from(
    ps: &Vec<Vec<char>>,
    pi: usize,
    ss: &Vec<Vec<char>>,
    si: usize,
    dir_only: bool,
) -> (r: bool)
    requires
        pi <= ps@.len(),
        si <= ss@.len(),
    ensures
        r == match_segments(
            seg_views(ps@).skip(pi as int),
            seg_views(ss@).skip(si as int),
            dir_only,
        ),
    decreases ps@.len() - pi, ss@.len() - si,
{
    let ghost pv = seg_views(ps@).skip(pi as int);
    let ghost sv = seg_views(ss@).skip(si as int);
    proof {
        if pi < ps@.len() {
            assert(pv.drop_first() == seg_views(ps@).skip(pi + 1));
            assert(pv[0] == ps@[pi as int]@);
        }
        if si < ss@.len() {
            assert(sv.drop_first() == seg_views(ss@).skip(si + 1));
            assert(sv[0] == ss@[si as int]@);
        }
    }
    if pi == ps.len() {
        return !dir_only || si < ss.len();
    }
    if is_double_star_exec(&ps[pi]) {
        if segments_from(ps, pi + 1, ss, si, dir_only) {
            return true;
        }
        return si < ss.len() && segments_from(ps, pi, ss, si + 1, dir_only);
    }
    if si == ss.len() {
        return false;
    }
    let head = glob_from(&ps[pi], 0, &ss[si], 0);
    proof {
        assert(ps@[pi as int]@.skip(0) == ps@[pi as int]@);
        assert(ss@[si as int]@.skip(0) == ss@[si as int]@);
    }
    head && segments_from(ps, pi + 1, ss, si + 1, dir_only)
}

/// Whether `path` matches `pattern`, both given as characters.
pub fn pattern_matches_chars(path: &Vec<char>, pattern: &Vec<char>) -> (r: bool)
    ensures
        r == pattern_matches(path@, pattern@),
{
    let anchored = pattern.len() > 0 && pattern[0] == '/';
    let a: usize = if anchored {
        1
    } else {
        0
    };
    let dir_only = pattern.len() > a && pattern[pattern.len() - 1] == '/';
    let e: usize = if dir_only {
        pattern.len() - 1
    } else {
        pattern.len()
    };
    let body = crate::text::chars_range(pattern, a, e);
    let ps = split_on_slash(&body);
    let ss = split_on_slash(path);
    let ghost pv = seg_views(ps@);
    assert(pv.skip(0) == pv);
    if anchored {
        assert(seg_views(ss@).skip(0) == seg_views(ss@));
        return segments_from(&ps, 0, &ss, 0, dir_only);
    }
    let mut k: usize = 0;
    assert(seg_views(ss@).skip(0) == seg_views(ss@));
    while k < ss.len()
        invariant
            k <= ss@.len(),
            seg_views(ps@) == split_segments(pattern_body(pattern@)),
            pv == seg_views(ps@),
            pv.skip(0) == pv,
            seg_views(ss@) == split_segments(path@),
            !is_anchored(pattern@),
            is_dir_only(pattern@) == dir_only,
            match_at_any_depth(pv, seg_views(ss@), dir_only) == match_at_any_depth(
                pv,
                seg_views(ss@).skip(k as int),
                dir_only,
            ),
        decreases ss@.len() - k,
    {
        if segments_from(&ps, 0, &ss, k, dir_only) {
            assert(match_at_any_depth(pv, seg_views(ss@).skip(k as int), dir_only));
            return true;
        }
        assert(seg_views(ss@).skip(k as int).drop_first() == seg_views(ss@).skip(k + 1));
        k = k + 1;
    }
    segments_from(&ps, 0, &ss, k, dir_only)
}

proof fn lemma_split_nonempty(s: Seq<char>)
    ensures
        split_segments(s).len() >= 1,
    decreases s.len(),
{
    if s.len() > 0 {
        lemma_split_nonempty(s.drop_last());
    }
}

/// Splitting `a/b` gives the segments of `a` followed by those of `b`.
proof fn lemma_split_concat(a: Seq<char>, b: Seq<char>)
    ensures
        split_segments(a + seq!['/'] + b) == split_segments(a) + split_segments(b),
    decreases b.len(),
{
    let ab = a + seq!['/'] + b;
    if b.len() == 0 {
        assert(ab.drop_last() == a);
        assert(ab.last() == '/');
        assert(split_segments(b) == seq![Seq::<char>::empty()]);
    } else {
        let front = b.drop_last();
        lemma_split_concat(a, front);
        lemma_split_nonempty(front);
        assert(ab.drop_last() == a + seq!['/'] + front);
        assert(ab.last() == b.last());
        let sa = split_segments(a);
        let sf = split_segments(front);
        if b.last() == '/' {
            assert((sa + sf).push(Seq::empty()) == sa + sf.push(Seq::empty()));
        } else {
            assert((sa + sf).update(sa.len() + sf.len() - 1, (sa + sf).last().push(b.last())) == sa
                + sf.update(sf.len() - 1, sf.last().push(b.last())));
        }
    }
}

proof fn lemma_deeper_still_matches(ps: Seq<Seq<char>>, pre: Seq<Seq<char>>, ss: Seq<Seq<char>>, dir_only: bool)
    requires
        match_at_any_depth(ps, ss, dir_only),
    ensures
        match_at_any_depth(ps, pre + ss, dir_only),
    decreases pre.len(),
{
    if pre.len() > 0 {
        lemma_deeper_still_matches(ps, pre.drop_first(), ss, dir_only);
        assert((pre + ss).drop_first() == pre.drop_first() + ss);
    } else {
        assert(pre + ss == ss);
    }
}

/// A pattern without a leading `/` that matches a path also matches that path
/// inside any directory.
pub proof fn lemma_unanchored_matches_at_any_depth(dir: Seq<char>, path: Seq<char>, pattern: Seq<char>)
    requires
        !is_anchored(pattern),
        pattern_matches(path, pattern),
    ensures
        pattern_matches(dir + seq!['/'] + path, pattern),
{
    lemma_split_concat(dir, path);
    lemma_deeper_still_matches(
        split_segments(pattern_body(pattern)),
        split_segments(dir),
        split_segments(path),
        is_dir_only(pattern),
    );
}

} // verus!
