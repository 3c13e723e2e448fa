//! Splitting a request path into its segments.
//!
//! A path template is split on `/`; empty segments produced by leading,
//! trailing or doubled slashes are dropped, so `/hello`, `//hello/` and
//! `hello` all name the same sequence of segments.

use vstd::prelude::*;

verus! {

/// The segments of `s`, given that `cur` holds the partial segment
/// gathered just before `s` begins. Empty segments are dropped.
pub open spec fn seg_scan(s: Seq<char>, cur: Seq<char>) -> Seq<Seq<char>>
    decreases s.len(),
{
    if s.len() == 0 {
        if cur.len() == 0 {
            Seq::empty()
        } else {
            seq![cur]
        }
    } else if s[0] == '/' {
        if cur.len() == 0 {
            seg_scan(s.drop_first(), Seq::empty())
        } else {
            seq![cur] + seg_scan(s.drop_first(), Seq::empty())
        }
    } else {
        seg_scan(s.drop_first(), cur.push(s[0]))
    }
}

/// The non-empty `/`-separated segments of a path, in order.
pub open spec fn segments(s: Seq<char>) -> Seq<Seq<char>> {
    seg_scan(s, Seq::empty())
}

/// The views of a sequence of owned strings.
pub open spec fn views_of(ss: Seq<String>) -> Seq<Seq<char>> {
    ss.map_values(|s: String| s@)
}

/// Splits a path into its non-empty segments.
pub fn split_segments(path: &str) -> (segs: Vec<String>)
    ensures
        views_of(segs@) == segments(path@),
{
    let n = path.unicode_len();
    let mut segs: Vec<String> = Vec::new();
    let mut start: usize = 0;
    let mut i: usize = 0;
    proof {
        assert(path@.skip(0) =~= path@);
        assert(path@.subrange(0, 0) =~= Seq::<char>::empty());
        assert(views_of(segs@) =~= Seq::<Seq<char>>::empty());
    }
    while i < n
        invariant
            n == path@.len(),
            start <= i <= n,
            forall|k: int| start <= k < i ==> path@[k] != '/',
            segments(path@) == views_of(segs@) + seg_scan(
                path@.skip(i as int),
                path@.subrange(start as int, i as int),
            ),
        decreases n - i,
    {
        let c = path.get_char(i);
        proof {
            assert(path@.skip(i as int).drop_first() =~= path@.skip(i + 1));
            assert(path@.skip(i as int)[0] == path@[i as int]);
        }
        if c == '/' {
            if start < i {
                let seg = String::from_str(path.substring_char(start, i));
                let ghost old_segs = segs@;
                segs.push(seg);
                proof {
                    let cur = path@.subrange(start as int, i as int);
                    assert(views_of(segs@) =~= views_of(old_segs).push(cur));
                    assert(views_of(old_segs) + (seq![cur] + seg_scan(
                        path@.skip(i + 1),
                        Seq::empty(),
                    )) =~= views_of(segs@) + seg_scan(path@.skip(i + 1), Seq::empty()));
                    assert(path@.subrange(i + 1, i + 1) =~= Seq::<char>::empty());
                }
            } else {
                proof {
                    assert(path@.subrange(start as int, i as int) =~= Seq::<char>::empty());
                    assert(path@.subrange(i + 1, i + 1) =~= Seq::<char>::empty());
                }
            }
            start = i + 1;
        } else {
            proof {
                assert(path@.subrange(start as int, i + 1) =~= path@.subrange(
                    start as int,
                    i as int,
                ).push(path@[i as int]));
            }
        }
        i = i + 1;
    }
    proof {
        assert(path@.skip(n as int) =~= Seq::<char>::empty());
    }
    if start < n {
        let seg = String::from_str(path.substring_char(start, n));
        let ghost old_segs = segs@;
        segs.push(seg);
        proof {
            let cur = path@.subrange(start as int, n as int);
            assert(views_of(segs@) =~= views_of(old_segs).push(cur));
            assert(views_of(old_segs) + seq![cur] =~= views_of(segs@));
        }
    } else {
        proof {
            assert(path@.subrange(start as int, n as int) =~= Seq::<char>::empty());
            assert(views_of(segs@) + Seq::<Seq<char>>::empty() =~= views_of(segs@));
        }
    }
    segs
}

/// A leading slash does not change the segments of a path.
pub proof fn lemma_segments_leading_slash(s: Seq<char>)
    ensures
        segments(seq!['/'] + s) == segments(s),
{
    let t = seq!['/'] + s;
    assert(t[0] == '/');
    assert(t.drop_first() =~= s);
}

proof fn lemma_seg_scan_trailing(s: Seq<char>, cur: Seq<char>)
    ensures
        seg_scan(s.push('/'), cur) == seg_scan(s, cur),
    decreases s.len(),
{
    let t = s.push('/');
    if s.len() == 0 {
        assert(t[0] == '/');
        assert(t.drop_first() =~= Seq::<char>::empty());
        assert(seg_scan(t.drop_first(), Seq::empty()) == Seq::<Seq<char>>::empty());
        assert(seq![cur] + Seq::<Seq<char>>::empty() =~= seq![cur]);
    } else {
        assert(t[0] == s[0]);
        assert(t.drop_first() =~= s.drop_first().push('/'));
        if s[0] == '/' {
            lemma_seg_scan_trailing(s.drop_first(), Seq::empty());
        } else {
            lemma_seg_scan_trailing(s.drop_first(), cur.push(s[0]));
        }
    }
}

/// A trailing slash does not change the segments of a path.
pub proof fn lemma_segments_trailing_slash(s: Seq<char>)
    ensures
        segments(s.push('/')) == segments(s),
{
    lemma_seg_scan_trailing(s, Seq::empty());
}

proof fn lemma_seg_scan_double_slash(s1: Seq<char>, s2: Seq<char>, cur: Seq<char>)
    ensures
        seg_scan(s1 + seq!['/', '/'] + s2, cur) == seg_scan(s1 + seq!['/'] + s2, cur),
    decreases s1.len(),
{
    let a = s1 + seq!['/', '/'] + s2;
    let b = s1 + seq!['/'] + s2;
    if s1.len() == 0 {
        assert(a[0] == '/');
        assert(b[0] == '/');
        assert(a.drop_first() =~= seq!['/'] + s2);
        assert(b.drop_first() =~= s2);
        let m = seq!['/'] + s2;
        assert(m[0] == '/');
        assert(m.drop_first() =~= s2);
        assert(seg_scan(m, Seq::empty()) == seg_scan(s2, Seq::empty()));
        assert(seg_scan(a, cur) == seg_scan(b, cur));
    } else {
        assert(a[0] == s1[0]);
        assert(b[0] == s1[0]);
        assert(a.drop_first() =~= s1.drop_first() + seq!['/', '/'] + s2);
        assert(b.drop_first() =~= s1.drop_first() + seq!['/'] + s2);
        if s1[0] == '/' {
            lemma_seg_scan_double_slash(s1.drop_first(), s2, Seq::empty());
        } else {
            lemma_seg_scan_double_slash(s1.drop_first(), s2, cur.push(s1[0]));
        }
    }
}

/// Doubling a slash does not change the segments of a path.
pub proof fn lemma_segments_double_slash(s1: Seq<char>, s2: Seq<char>)
    ensures
        segments(s1 + seq!['/', '/'] + s2) == segments(s1 + seq!['/'] + s2),
{
    lemma_seg_scan_double_slash(s1, s2, Seq::empty());
}

} // verus!
