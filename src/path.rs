use vstd::prelude::*;
use vstd::string::*;

use crate::header::views;

verus! {

/// Segments joined with '/' between them.
pub open spec fn join(segs: Seq<Seq<char>>) -> Seq<char>
    decreases segs.len(),
{
    if segs.len() == 0 {
        Seq::empty()
    } else if segs.len() == 1 {
        segs[0]
    } else {
        join(segs.drop_last()) + seq!['/'] + segs.last()
    }
}

/// The segment that runs from `start` up to `i`, if it is not empty.
pub open spec fn piece(s: Seq<char>, start: int, i: int) -> Seq<Seq<char>> {
    if start < i {
        seq![s.subrange(start, i)]
    } else {
        Seq::empty()
    }
}

/// The segments of `s` from position `i` on, where the current one began at `start`.
pub open spec fn segments_from(s: Seq<char>, start: int, i: int) -> Seq<Seq<char>>
    decreases s.len() - i,
{
    if i >= s.len() {
        piece(s, start, s.len() as int)
    } else if s[i] == '/' {
        piece(s, start, i) + segments_from(s, i + 1, i + 1)
    } else {
        segments_from(s, start, i + 1)
    }
}

/// A path split on '/', with the empty segments left out.
pub open spec fn path_segments(s: Seq<char>) -> Seq<Seq<char>> {
    segments_from(s, 0, 0)
}

/// A name that a path can hold as one segment.
pub open spec fn is_segment(n: Seq<char>) -> bool {
    n.len() > 0 && forall|k: int| 0 <= k < n.len() ==> #[trigger] n[k] != '/'
}

/// Splits a path on '/' and drops the empty segments.
pub fn split_path(path: &str) -> (r: Vec<String>)
    ensures
        views(r@) == path_segments(path@),
{
    let n = path.unicode_len();
    let ghost s = path@;
    let mut done: Vec<String> = Vec::new();
    let mut start: usize = 0;
    let mut i: usize = 0;
    while i < n
        invariant
            s == path@,
            n == s.len(),
            0 <= start <= i <= n,
            path_segments(s) == views(done@) + segments_from(s, start as int, i as int),
        decreases n - i,
    {
        if path.get_char(i) == '/' {
            if start < i {
                let ghost before = done@;
                let seg = String::from_str(path.substring_char(start, i));
                done.push(seg);
                assert(views(done@) =~= views(before) + piece(s, start as int, i as int));
            }
            assert(path_segments(s) == views(done@) + segments_from(s, i + 1, i + 1));
            start = i + 1;
        }
        i = i + 1;
    }
    if start < n {
        let seg = String::from_str(path.substring_char(start, n));
        done.push(seg);
    }
    assert(views(done@) =~= path_segments(s));
    done
}

/// Joins segments with '/'.
pub fn join_path(segs: &Vec<String>) -> (r: String)
    ensures
        r@ == join(views(segs@)),
{
    let ghost v = views(segs@);
    if segs.len() == 0 {
        return String::new();
    }
    let mut r = segs[0].clone();
    let mut i: usize = 1;
    proof {
        reveal_strlit("/");
        assert(v.take(1).drop_last() =~= Seq::<Seq<char>>::empty());
        assert(join(v.take(1)) == v[0]);
    }
    while i < segs.len()
        invariant
            v == views(segs@),
            1 <= i <= segs@.len(),
            r@ == join(v.take(i as int)),
            "/"@ == seq!['/'],
        decreases segs@.len() - i,
    {
        r.append("/");
        r.append(segs[i].as_str());
        assert(v.take(i + 1).drop_last() =~= v.take(i as int));
        i = i + 1;
    }
    assert(v.take(i as int) =~= v);
    r
}

proof fn lemma_scan_segment(s: Seq<char>, start: int, i: int, j: int)
    requires
        0 <= start <= i <= j <= s.len(),
        forall|k: int| i <= k < j ==> #[trigger] s[k] != '/',
    ensures
        segments_from(s, start, i) == segments_from(s, start, j),
    decreases j - i,
{
    if i < j {
        lemma_scan_segment(s, start, i + 1, j);
    }
}

proof fn lemma_split_joined_from(s: Seq<char>, p: int, segs: Seq<Seq<char>>)
    requires
        0 <= p <= s.len(),
        segs.len() > 0,
        forall|i: int| 0 <= i < segs.len() ==> is_segment(#[trigger] segs[i]),
        s.subrange(p, s.len() as int) == join(segs),
    ensures
        segments_from(s, p, p) == segs,
    decreases segs.len(),
{
    let a = segs[0];
    assert(is_segment(segs[0]));
    let rest = segs.drop_first();
    let e = p + a.len();
    if segs.len() == 1 {
        assert(join(segs) == a);
        assert forall|k: int| p <= k < e implies #[trigger] s[k] != '/' by {
            assert(s[k] == s.subrange(p, s.len() as int)[k - p]);
        }
        lemma_scan_segment(s, p, p, e);
        assert(s.subrange(p, e) =~= a);
    } else {
        lemma_join_front(a, rest);
        assert(segs =~= seq![a] + rest);
        let t = s.subrange(p, s.len() as int);
        assert(t =~= a + seq!['/'] + join(rest));
        assert(t.len() == s.len() - p);
        assert forall|k: int| p <= k < e implies #[trigger] s[k] != '/' by {
            assert(s[k] == t[k - p]);
            assert(t[k - p] == a[k - p]);
        }
        lemma_scan_segment(s, p, p, e);
        assert(s[e] == t[a.len() as int]);
        assert(s.subrange(p, e) =~= a);
        assert forall|k: int| 0 <= k < join(rest).len() implies s.subrange(e + 1, s.len() as int)[k]
            == #[trigger] join(rest)[k] by {
            assert(t[a.len() + 1 + k] == join(rest)[k]);
        }
        assert(s.subrange(e + 1, s.len() as int) =~= join(rest));
        assert forall|i: int| 0 <= i < rest.len() implies is_segment(#[trigger] rest[i]) by {
            assert(rest[i] == segs[i + 1]);
        }
        lemma_split_joined_from(s, e + 1, rest);
    }
}

pub(crate) proof fn lemma_join_front(a: Seq<char>, rest: Seq<Seq<char>>)
    requires
        rest.len() > 0,
    ensures
        join(seq![a] + rest) == a + seq!['/'] + join(rest),
    decreases rest.len(),
{
    let segs = seq![a] + rest;
    if rest.len() == 1 {
        assert(segs.drop_last() =~= seq![a]);
        assert(join(seq![a]) == a);
        assert(join(segs) == join(segs.drop_last()) + seq!['/'] + segs.last());
    } else {
        lemma_join_front(a, rest.drop_last());
        assert(segs.drop_last() =~= seq![a] + rest.drop_last());
        assert(join(segs) == join(segs.drop_last()) + seq!['/'] + segs.last());
        assert(join(rest) == join(rest.drop_last()) + seq!['/'] + rest.last());
        assert(a + seq!['/'] + join(rest) =~= a + seq!['/'] + join(rest.drop_last()) + seq!['/']
            + rest.last());
    }
}

/// Splitting a joined path gives its segments back, when each is a usable name.
pub proof fn lemma_split_join(segs: Seq<Seq<char>>)
    requires
        forall|i: int| 0 <= i < segs.len() ==> is_segment(#[trigger] segs[i]),
    ensures
        path_segments(join(segs)) == segs,
{
    if segs.len() == 0 {
        assert(path_segments(join(segs)) =~= segs);
    } else {
        let s = join(segs);
        assert(s.subrange(0, s.len() as int) =~= s);
        lemma_split_joined_from(s, 0, segs);
    }
}

} // verus!
