//! Splitting a run of mapped slots into the segments that are shaped
//! independently: the maximal runs of present glyphs, cut at every hole.

use vstd::prelude::*;

verus! {

/// The run of present items at the end of `s`, after its last hole.
pub open spec fn open_run<T>(s: Seq<Option<T>>) -> Seq<T>
    decreases s.len(),
{
    if s.len() == 0 {
        seq![]
    } else {
        match s.last() {
            Some(g) => open_run(s.drop_last()).push(g),
            None => seq![],
        }
    }
}

/// The non-empty runs of present items in `s` that a hole closes, in order.
pub open spec fn closed_runs<T>(s: Seq<Option<T>>) -> Seq<Seq<T>>
    decreases s.len(),
{
    if s.len() == 0 {
        seq![]
    } else {
        let p = s.drop_last();
        match s.last() {
            Some(_) => closed_runs(p),
            None => if open_run(p).len() > 0 {
                closed_runs(p).push(open_run(p))
            } else {
                closed_runs(p)
            },
        }
    }
}

/// The segments of `s`: its maximal non-empty runs of present items, in
/// order. A hole always ends a segment; no segment holds a hole.
pub open spec fn segments<T>(s: Seq<Option<T>>) -> Seq<Seq<T>> {
    if open_run(s).len() > 0 {
        closed_runs(s).push(open_run(s))
    } else {
        closed_runs(s)
    }
}

/// The present items of `s`, in order.
pub open spec fn present<T>(s: Seq<Option<T>>) -> Seq<T>
    decreases s.len(),
{
    if s.len() == 0 {
        seq![]
    } else {
        match s.last() {
            Some(g) => present(s.drop_last()).push(g),
            None => present(s.drop_last()),
        }
    }
}

/// `s` with `f` applied to each present item.
pub open spec fn map_present<A, B>(s: Seq<Option<A>>, f: spec_fn(A) -> B) -> Seq<Option<B>> {
    s.map_values(|o: Option<A>| match o {
        Some(a) => Some(f(a)),
        None => None,
    })
}

/// Splits `slots` into its segments, moving each present item once.
pub fn split_segments<T>(slots: Vec<Option<T>>) -> (segs: Vec<Vec<T>>)
    ensures
        segs@.len() == segments(slots@).len(),
        forall|k: int| 0 <= k < segs@.len() ==> (#[trigger] segs@[k])@ == segments(slots@)[k],
{
    let ghost s = slots@;
    let mut rest = slots;
    let mut segs: Vec<Vec<T>> = Vec::new();
    let mut run: Vec<T> = Vec::new();
    let mut i: usize = 0;
    let n: usize = rest.len();
    while rest.len() > 0
        invariant
            n == s.len(),
            i <= s.len(),
            rest@ == s.subrange(i as int, s.len() as int),
            run@ == open_run(s.subrange(0, i as int)),
            segs@.len() == closed_runs(s.subrange(0, i as int)).len(),
            forall|k: int| 0 <= k < segs@.len()
                ==> (#[trigger] segs@[k])@ == closed_runs(s.subrange(0, i as int))[k],
        decreases rest@.len(),
    {
        let ghost pre = s.subrange(0, i as int);
        let slot = rest.remove(0);
        let ghost next = s.subrange(0, i + 1);
        assert(next.drop_last() == pre);
        assert(next.last() == slot);
        match slot {
            Some(g) => {
                run.push(g);
            },
            None => {
                if run.len() > 0 {
                    segs.push(run);
                    run = Vec::new();
                }
            },
        }
        i += 1;
        assert(rest@ =~= s.subrange(i as int, s.len() as int));
    }
    assert(s.subrange(0, i as int) == s);
    if run.len() > 0 {
        segs.push(run);
    }
    segs
}

/// A run with no hole is one segment, which holds every item: nothing is
/// dropped.
pub proof fn lemma_no_hole_one_segment<T>(s: Seq<Option<T>>)
    requires
        s.len() > 0,
        forall|i: int| 0 <= i < s.len() ==> (#[trigger] s[i]) is Some,
    ensures
        segments(s) == seq![present(s)],
        present(s).len() == s.len(),
{
    lemma_no_hole_parts(s);
}

proof fn lemma_no_hole_parts<T>(s: Seq<Option<T>>)
    requires
        forall|i: int| 0 <= i < s.len() ==> (#[trigger] s[i]) is Some,
    ensures
        open_run(s) == present(s),
        closed_runs(s) == Seq::<Seq<T>>::empty(),
        present(s).len() == s.len(),
    decreases s.len(),
{
    if s.len() > 0 {
        let p = s.drop_last();
        assert(forall|i: int| 0 <= i < p.len() ==> p[i] == s[i]);
        lemma_no_hole_parts(p);
        assert(s.last() == s[s.len() - 1]);
    }
}

/// A hole is a hard boundary: the segments on either side of it are those of
/// each side alone, so nothing before it joins anything after it.
pub proof fn lemma_hole_splits<T>(s1: Seq<Option<T>>, s2: Seq<Option<T>>)
    ensures
        segments(s1.push(None) + s2) == segments(s1) + segments(s2),
{
    lemma_after_hole(s1, s2);
    assert(segments(s1.push(None) + s2) =~= segments(s1) + segments(s2));
}

proof fn lemma_after_hole<T>(s1: Seq<Option<T>>, s2: Seq<Option<T>>)
    ensures
        open_run(s1.push(None) + s2) == open_run(s2),
        closed_runs(s1.push(None) + s2) == segments(s1) + closed_runs(s2),
    decreases s2.len(),
{
    let t = s1.push(None);
    let u = t + s2;
    if s2.len() == 0 {
        assert(u =~= t);
        assert(t.drop_last() =~= s1);
        assert(closed_runs(t) =~= segments(s1));
        assert(closed_runs(s2) =~= Seq::<Seq<T>>::empty());
        assert(segments(s1) + closed_runs(s2) =~= segments(s1));
    } else {
        let p2 = s2.drop_last();
        assert(u.drop_last() =~= t + p2);
        assert(u.last() == s2.last());
        lemma_after_hole(s1, p2);
        assert(closed_runs(u) =~= segments(s1) + closed_runs(s2));
    }
}

/// Input with no present item has no segment.
pub proof fn lemma_all_holes_no_segment<T>(s: Seq<Option<T>>)
    requires
        forall|i: int| 0 <= i < s.len() ==> (#[trigger] s[i]) is None,
    ensures
        segments(s).len() == 0,
{
    lemma_all_holes_parts(s);
}

proof fn lemma_all_holes_parts<T>(s: Seq<Option<T>>)
    requires
        forall|i: int| 0 <= i < s.len() ==> (#[trigger] s[i]) is None,
    ensures
        open_run(s).len() == 0,
        closed_runs(s).len() == 0,
    decreases s.len(),
{
    if s.len() > 0 {
        let p = s.drop_last();
        assert(forall|i: int| 0 <= i < p.len() ==> p[i] == s[i]);
        lemma_all_holes_parts(p);
        assert(s.last() == s[s.len() - 1]);
    }
}

/// The segments keep every present item, in order, and only those.
pub proof fn lemma_segments_keep_items<T>(s: Seq<Option<T>>)
    ensures
        segments(s).flatten() == present(s),
        forall|k: int| 0 <= k < segments(s).len() ==> (#[trigger] segments(s)[k]).len() > 0,
{
    lemma_parts_keep_items(s);
    if open_run(s).len() > 0 {
        closed_runs(s).lemma_flatten_push(open_run(s));
    }
}

proof fn lemma_parts_keep_items<T>(s: Seq<Option<T>>)
    ensures
        closed_runs(s).flatten() + open_run(s) == present(s),
        forall|k: int| 0 <= k < closed_runs(s).len() ==> (#[trigger] closed_runs(s)[k]).len() > 0,
    decreases s.len(),
{
    if s.len() == 0 {
        assert(closed_runs(s).flatten() + open_run(s) =~= present(s));
    } else {
        let p = s.drop_last();
        lemma_parts_keep_items(p);
        match s.last() {
            Some(g) => {
                assert(closed_runs(s).flatten() + open_run(s) =~= present(s));
            },
            None => {
                if open_run(p).len() > 0 {
                    closed_runs(p).lemma_flatten_push(open_run(p));
                }
                assert(closed_runs(s).flatten() + open_run(s) =~= present(s));
            },
        }
    }
}

/// What holds of every present item holds of every item of every segment.
pub proof fn lemma_segments_items<T>(s: Seq<Option<T>>, p: spec_fn(T) -> bool)
    requires
        forall|i: int| 0 <= i < s.len() ==> (#[trigger] s[i] matches Some(g) ==> p(g)),
    ensures
        forall|k: int, j: int| 0 <= k < segments(s).len() && 0 <= j < segments(s)[k].len()
            ==> p(#[trigger] segments(s)[k][j]),
{
    lemma_parts_items(s, p);
}

proof fn lemma_parts_items<T>(s: Seq<Option<T>>, p: spec_fn(T) -> bool)
    requires
        forall|i: int| 0 <= i < s.len() ==> (#[trigger] s[i] matches Some(g) ==> p(g)),
    ensures
        forall|j: int| 0 <= j < open_run(s).len() ==> p(#[trigger] open_run(s)[j]),
        forall|k: int, j: int| 0 <= k < closed_runs(s).len() && 0 <= j < closed_runs(s)[k].len()
            ==> p(#[trigger] closed_runs(s)[k][j]),
    decreases s.len(),
{
    if s.len() > 0 {
        let q = s.drop_last();
        assert forall|i: int| 0 <= i < q.len() implies (#[trigger] q[i] matches Some(g) ==> p(g)) by {
            assert(q[i] == s[i]);
        }
        lemma_parts_items(q, p);
        assert(s.last() == s[s.len() - 1]);
        match s.last() {
            Some(g) => {
                assert(p(g));
                assert forall|j: int| 0 <= j < open_run(s).len() implies p(#[trigger] open_run(s)[j]) by {
                    if j < open_run(q).len() {
                        assert(open_run(s)[j] == open_run(q)[j]);
                    }
                }
            },
            None => {
                assert forall|k: int, j: int|
                    0 <= k < closed_runs(s).len() && 0 <= j < closed_runs(s)[k].len() implies p(
                    #[trigger] closed_runs(s)[k][j],
                ) by {
                    if k < closed_runs(q).len() {
                        assert(closed_runs(s)[k] == closed_runs(q)[k]);
                    } else {
                        assert(closed_runs(s)[k] == open_run(q));
                    }
                }
            },
        }
    }
}

/// Segmenting commutes with changing each present item: the segments depend
/// on where the holes are, not on what the items hold.
pub proof fn lemma_segments_map<A, B>(s: Seq<Option<A>>, f: spec_fn(A) -> B)
    ensures
        segments(map_present(s, f)) == segments(s).map_values(|r: Seq<A>| r.map_values(f)),
{
    lemma_parts_map(s, f);
    let t = map_present(s, f);
    assert(segments(t) =~= segments(s).map_values(|r: Seq<A>| r.map_values(f)));
}

proof fn lemma_parts_map<A, B>(s: Seq<Option<A>>, f: spec_fn(A) -> B)
    ensures
        open_run(map_present(s, f)) == open_run(s).map_values(f),
        closed_runs(map_present(s, f)) == closed_runs(s).map_values(|r: Seq<A>| r.map_values(f)),
    decreases s.len(),
{
    let t = map_present(s, f);
    if s.len() == 0 {
        assert(open_run(t) =~= open_run(s).map_values(f));
        assert(closed_runs(t) =~= closed_runs(s).map_values(|r: Seq<A>| r.map_values(f)));
    } else {
        let p = s.drop_last();
        assert(t.drop_last() =~= map_present(p, f));
        lemma_parts_map(p, f);
        assert(open_run(t) =~= open_run(s).map_values(f));
        assert(closed_runs(t) =~= closed_runs(s).map_values(|r: Seq<A>| r.map_values(f)));
    }
}

} // verus!
