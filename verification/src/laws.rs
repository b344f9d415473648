use vstd::prelude::*;
use crate::events::Ev;
use crate::model::{
    TagPath, balanced, built_paths, count_closes, count_opens, init_paths, never_underflows, run,
    run_from, step,
};
use crate::tree::Node;

verus! {

/// Every path of `ps`, reattached below the position `cur`.
pub open spec fn graft(cur: TagPath, ps: Set<TagPath>) -> Set<TagPath> {
    Set::new(|p: TagPath| exists|q: TagPath| ps.contains(q) && p == cur + q)
}

/// Every prefix of the position `cur` is a recorded path: the current node
/// and all its ancestors exist in the tree.
pub open spec fn prefixes_in(s: Set<TagPath>, cur: TagPath) -> bool {
    forall|k: int| 0 <= k <= cur.len() ==> s.contains(#[trigger] cur.take(k))
}

/// One open, a body, and the matching close: a complete sibling block.
pub open spec fn block(x: Seq<char>, w: Seq<Ev>) -> Seq<Ev> {
    seq![Ev::Open(x)] + w + seq![Ev::Close(x)]
}

/// Event counts add up over concatenation.
pub proof fn lemma_count_concat(a: Seq<Ev>, b: Seq<Ev>)
    ensures
        count_opens(a + b) == count_opens(a) + count_opens(b),
        count_closes(a + b) == count_closes(a) + count_closes(b),
    decreases b.len(),
{
    if b.len() == 0 {
        assert(a + b =~= a);
    } else {
        assert((a + b).drop_last() =~= a + b.drop_last());
        assert((a + b).last() == b.last());
        lemma_count_concat(a, b.drop_last());
    }
}

/// A prefix of a never-underflowing sequence never underflows.
pub proof fn lemma_nu_prefix(es: Seq<Ev>, n: int)
    requires
        never_underflows(es),
        0 <= n <= es.len(),
    ensures
        never_underflows(es.take(n)),
{
    assert forall|i: int| 0 <= i <= es.take(n).len() implies count_closes(
        #[trigger] es.take(n).take(i),
    ) <= count_opens(es.take(n).take(i)) by {
        assert(es.take(n).take(i) =~= es.take(i));
    }
}

/// Running over a concatenation is running over the parts in turn.
pub proof fn lemma_run_concat(s: Set<TagPath>, cur: TagPath, a: Seq<Ev>, b: Seq<Ev>)
    ensures
        run_from(s, cur, a + b) == run_from(run_from(s, cur, a).0, run_from(s, cur, a).1, b),
    decreases b.len(),
{
    if b.len() == 0 {
        assert(a + b =~= a);
    } else {
        assert((a + b).drop_last() =~= a + b.drop_last());
        assert((a + b).last() == b.last());
        lemma_run_concat(s, cur, a, b.drop_last());
    }
}

/// Depth tracking: over well-nested input the machine's position depth is
/// exactly the count of currently open elements.
pub proof fn lemma_depth(es: Seq<Ev>)
    requires
        never_underflows(es),
    ensures
        run(es).1.len() == count_opens(es) - count_closes(es),
    decreases es.len(),
{
    if es.len() > 0 {
        let es0 = es.drop_last();
        assert(es0 =~= es.take(es.len() - 1));
        lemma_nu_prefix(es, es.len() - 1);
        lemma_depth(es0);
        if es.last() is Close {
            assert(es.take(es.len() as int) =~= es);
            assert(count_closes(es) <= count_opens(es));
        }
    }
}

/// The recorded paths only grow: nothing a later event does removes a path.
pub proof fn lemma_monotonic(s: Set<TagPath>, cur: TagPath, es: Seq<Ev>)
    ensures
        s.subset_of(run_from(s, cur, es).0),
    decreases es.len(),
{
    if es.len() > 0 {
        lemma_monotonic(s, cur, es.drop_last());
    }
}

/// Composition: from a position whose ancestors all exist, a well-nested
/// sequence adds exactly its own built paths, grafted below that position,
/// and returns with the position extended by its leftover open path.
pub proof fn lemma_compose(s: Set<TagPath>, cur: TagPath, es: Seq<Ev>)
    requires
        never_underflows(es),
        prefixes_in(s, cur),
    ensures
        run_from(s, cur, es).0 == s.union(graft(cur, run(es).0)),
        run_from(s, cur, es).1 == cur + run(es).1,
    decreases es.len(),
{
    if es.len() == 0 {
        assert(cur + Seq::<Seq<char>>::empty() =~= cur);
        assert(cur.take(cur.len() as int) =~= cur);
        assert(s.contains(cur));
        assert forall|p: TagPath| graft(cur, run(es).0).contains(p) implies p == cur by {
            let q = choose|q: TagPath| run(es).0.contains(q) && p == cur + q;
            assert(q =~= Seq::<Seq<char>>::empty());
            assert(cur + q =~= cur);
        }
        assert(init_paths().contains(Seq::<Seq<char>>::empty()));
        assert(cur + Seq::<Seq<char>>::empty() =~= cur);
        assert(graft(cur, run(es).0).contains(cur));
        assert(run_from(s, cur, es).0 =~= s.union(graft(cur, run(es).0)));
        assert(run_from(s, cur, es).1 =~= cur + run(es).1);
    } else {
        let es0 = es.drop_last();
        assert(es0 =~= es.take(es.len() - 1));
        lemma_nu_prefix(es, es.len() - 1);
        lemma_compose(s, cur, es0);
        let s0 = run(es0).0;
        let p0 = run(es0).1;
        match es.last() {
            Ev::Open(n) => {
                assert((cur + p0).push(n) =~= cur + p0.push(n));
                assert(run(es).0 == s0.insert(p0.push(n)));
                assert forall|x: TagPath|
                    s.union(graft(cur, s0)).insert(cur + p0.push(n)).contains(x) == s.union(
                        graft(cur, s0.insert(p0.push(n))),
                    ).contains(x) by {
                    if x == cur + p0.push(n) {
                        assert(s0.insert(p0.push(n)).contains(p0.push(n)));
                        assert(graft(cur, s0.insert(p0.push(n))).contains(x));
                    }
                    if graft(cur, s0.insert(p0.push(n))).contains(x) {
                        let q = choose|q: TagPath|
                            s0.insert(p0.push(n)).contains(q) && x == cur + q;
                        if q == p0.push(n) {
                        } else {
                            assert(s0.contains(q));
                            assert(graft(cur, s0).contains(x));
                        }
                    }
                    if graft(cur, s0).contains(x) {
                        let q = choose|q: TagPath| s0.contains(q) && x == cur + q;
                        assert(s0.insert(p0.push(n)).contains(q));
                        assert(graft(cur, s0.insert(p0.push(n))).contains(x));
                    }
                }
                assert(s.union(graft(cur, s0)).insert(cur + p0.push(n)) =~= s.union(
                    graft(cur, s0.insert(p0.push(n))),
                ));
            },
            Ev::Close(_) => {
                assert(es.take(es.len() as int) =~= es);
                assert(count_closes(es) <= count_opens(es));
                lemma_depth(es0);
                assert(p0.len() >= 1);
                assert((cur + p0).len() > 0);
                assert((cur + p0).drop_last() =~= cur + p0.drop_last());
                assert(run(es).1 == p0.drop_last());
            },
        }
    }
}

/// A balanced sequence returns to the position it started from, having added
/// exactly its own built paths below that position.
pub proof fn lemma_balanced_run(s: Set<TagPath>, cur: TagPath, es: Seq<Ev>)
    requires
        balanced(es),
        prefixes_in(s, cur),
    ensures
        run_from(s, cur, es).0 == s.union(graft(cur, built_paths(es))),
        run_from(s, cur, es).1 == cur,
{
    lemma_compose(s, cur, es);
    lemma_depth(es);
    assert(run(es).1 =~= Seq::<Seq<char>>::empty());
    assert(cur + Seq::<Seq<char>>::empty() =~= cur);
}

/// Running from the root with extra recorded paths: the extra paths just
/// carry along, and the position behaves as from a fresh root.
pub proof fn lemma_root_compose(s: Set<TagPath>, es: Seq<Ev>)
    requires
        s.contains(Seq::<Seq<char>>::empty()),
    ensures
        run_from(s, Seq::<Seq<char>>::empty(), es).0 == s.union(run(es).0),
        run_from(s, Seq::<Seq<char>>::empty(), es).1 == run(es).1,
    decreases es.len(),
{
    let root: TagPath = Seq::empty();
    if es.len() == 0 {
        assert(run_from(s, root, es).0 =~= s.union(run(es).0));
    } else {
        lemma_root_compose(s, es.drop_last());
        let s0 = run(es.drop_last()).0;
        let p0 = run(es.drop_last()).1;
        match es.last() {
            Ev::Open(n) => {
                assert(s.union(s0).insert(p0.push(n)) =~= s.union(s0.insert(p0.push(n))));
            },
            Ev::Close(_) => {
            },
        }
    }
}

/// Concatenating balanced sequences yields a balanced sequence.
pub proof fn lemma_balanced_concat(a: Seq<Ev>, b: Seq<Ev>)
    requires
        balanced(a),
        balanced(b),
    ensures
        balanced(a + b),
{
    lemma_count_concat(a, b);
    assert forall|i: int| 0 <= i <= (a + b).len() implies count_closes(
        #[trigger] (a + b).take(i),
    ) <= count_opens((a + b).take(i)) by {
        if i <= a.len() {
            assert((a + b).take(i) =~= a.take(i));
            assert(a.take(i) =~= a.take(i));
        } else {
            assert((a + b).take(i) =~= a + b.take(i - a.len()));
            lemma_count_concat(a, b.take(i - a.len()));
            assert(a.take(a.len() as int) =~= a);
        }
    }
}

/// Building from a balanced sequence followed by anything else builds the
/// union of what the parts build, and the trailing part alone decides where
/// the position ends up.
pub proof fn lemma_built_concat(a: Seq<Ev>, b: Seq<Ev>)
    requires
        balanced(a),
    ensures
        built_paths(a + b) == built_paths(a).union(built_paths(b)),
        run(a + b).1 == run(b).1,
{
    lemma_run_concat(init_paths(), Seq::empty(), a, b);
    lemma_depth(a);
    assert(run(a).1 =~= Seq::<Seq<char>>::empty());
    lemma_monotonic(init_paths(), Seq::empty(), a);
    assert(init_paths().contains(Seq::<Seq<char>>::empty()));
    assert(run(a).0.contains(Seq::<Seq<char>>::empty()));
    lemma_root_compose(run(a).0, b);
}

/// Sibling insertion order never affects the final tree: two balanced
/// stretches of input may be swapped without changing the recorded paths or
/// the final position.
pub proof fn lemma_sibling_order(s: Set<TagPath>, cur: TagPath, a: Seq<Ev>, b: Seq<Ev>)
    requires
        balanced(a),
        balanced(b),
        prefixes_in(s, cur),
    ensures
        run_from(s, cur, a + b) == run_from(s, cur, b + a),
{
    lemma_balanced_concat(a, b);
    lemma_balanced_concat(b, a);
    lemma_balanced_run(s, cur, a + b);
    lemma_balanced_run(s, cur, b + a);
    lemma_built_concat(a, b);
    lemma_built_concat(b, a);
    assert(built_paths(a + b) =~= built_paths(b + a));
    assert(run_from(s, cur, a + b).0 =~= run_from(s, cur, b + a).0);
}

/// The same, stated of whole documents built from the root.
pub proof fn lemma_sibling_order_built(a: Seq<Ev>, b: Seq<Ev>)
    requires
        balanced(a),
        balanced(b),
    ensures
        built_paths(a + b) == built_paths(b + a),
{
    lemma_built_concat(a, b);
    lemma_built_concat(b, a);
    assert(built_paths(a + b) =~= built_paths(b + a));
}

/// A complete sibling block is balanced.
pub proof fn lemma_block_balanced(x: Seq<char>, w: Seq<Ev>)
    requires
        balanced(w),
    ensures
        balanced(block(x, w)),
{
    let o: Seq<Ev> = seq![Ev::Open(x)];
    let c: Seq<Ev> = seq![Ev::Close(x)];
    assert(count_opens(Seq::<Ev>::empty()) == 0);
    assert(count_closes(Seq::<Ev>::empty()) == 0);
    assert(o.drop_last() =~= Seq::<Ev>::empty());
    assert(count_opens(o) == 1 && count_closes(o) == 0);
    assert(c.drop_last() =~= Seq::<Ev>::empty());
    assert(count_opens(c) == 0 && count_closes(c) == 1);
    lemma_count_concat(o, w);
    lemma_count_concat(o + w, c);
    assert forall|i: int| 0 <= i <= block(x, w).len() implies count_closes(
        #[trigger] block(x, w).take(i),
    ) <= count_opens(block(x, w).take(i)) by {
        if i == 0 {
            assert(block(x, w).take(0) =~= Seq::<Ev>::empty());
        } else if i <= 1 + w.len() {
            assert(block(x, w).take(i) =~= o + w.take(i - 1));
            lemma_count_concat(o, w.take(i - 1));
        } else {
            assert(block(x, w).take(i) =~= block(x, w));
        }
    }
}

/// What one sibling block builds: the child's own path, plus the block
/// body's paths grafted below the child.
pub proof fn lemma_block_built(x: Seq<char>, w: Seq<Ev>)
    requires
        balanced(w),
    ensures
        built_paths(block(x, w)) == init_paths().insert(seq![x]).union(
            graft(seq![x], built_paths(w)),
        ),
        run(block(x, w)).1 == Seq::<Seq<char>>::empty(),
{
    let root: TagPath = Seq::empty();
    let o: Seq<Ev> = seq![Ev::Open(x)];
    let c: Seq<Ev> = seq![Ev::Close(x)];
    // after the open: the child's path is recorded and is the position
    assert(o.drop_last() =~= Seq::<Ev>::empty());
    assert(run_from(init_paths(), root, Seq::<Ev>::empty()) == (init_paths(), root));
    assert(run_from(init_paths(), root, o) == step(init_paths(), root, Ev::Open(x)));
    assert(root.push(x) =~= seq![x]);
    let s1 = init_paths().insert(seq![x]);
    assert(run_from(init_paths(), root, o) == (s1, seq![x]));
    // the body adds its paths below the child
    assert(prefixes_in(s1, seq![x])) by {
        assert forall|k: int| 0 <= k <= seq![x].len() implies s1.contains(
            #[trigger] seq![x].take(k),
        ) by {
            if k == 0 {
                assert(seq![x].take(0) =~= root);
            } else {
                assert(seq![x].take(k) =~= seq![x]);
            }
        }
    }
    lemma_run_concat(init_paths(), root, o, w);
    lemma_balanced_run(s1, seq![x], w);
    let s2 = s1.union(graft(seq![x], built_paths(w)));
    assert(run_from(init_paths(), root, o + w) == (s2, seq![x]));
    // the close returns to the root and records nothing
    lemma_run_concat(init_paths(), root, o + w, c);
    assert(block(x, w) == (o + w) + c);
    assert(c.drop_last() =~= Seq::<Ev>::empty());
    assert(run_from(s2, seq![x], Seq::<Ev>::empty()) == (s2, seq![x]));
    assert(run_from(s2, seq![x], c) == step(s2, seq![x], Ev::Close(x)));
    assert(seq![x].drop_last() =~= root);
    assert(run(block(x, w)) == (s2, root));
}

/// Dedup: two complete sibling blocks with the same name build the same tree
/// as one block with that name whose body is both bodies in turn.  The later
/// occurrence reuses the child the earlier one created and extends, never
/// replaces, its subtree; recorded paths are a set, so the parent gains the
/// child's name once.
pub proof fn lemma_dedup(s: Set<TagPath>, cur: TagPath, x: Seq<char>, w1: Seq<Ev>, w2: Seq<Ev>)
    requires
        balanced(w1),
        balanced(w2),
        prefixes_in(s, cur),
    ensures
        run_from(s, cur, block(x, w1) + block(x, w2)) == run_from(s, cur, block(x, w1 + w2)),
{
    lemma_block_balanced(x, w1);
    lemma_block_balanced(x, w2);
    lemma_balanced_concat(w1, w2);
    lemma_block_balanced(x, w1 + w2);
    lemma_balanced_concat(block(x, w1), block(x, w2));
    lemma_balanced_run(s, cur, block(x, w1) + block(x, w2));
    lemma_balanced_run(s, cur, block(x, w1 + w2));
    lemma_built_concat(block(x, w1), block(x, w2));
    lemma_block_built(x, w1);
    lemma_block_built(x, w2);
    lemma_block_built(x, w1 + w2);
    lemma_built_concat(w1, w2);
    assert(built_paths(block(x, w1) + block(x, w2)) =~= built_paths(block(x, w1 + w2))) by {
        assert forall|p: TagPath|
            graft(seq![x], built_paths(w1).union(built_paths(w2))).contains(p) == graft(
                seq![x],
                built_paths(w1),
            ).union(graft(seq![x], built_paths(w2))).contains(p) by {
            if graft(seq![x], built_paths(w1).union(built_paths(w2))).contains(p) {
                let q = choose|q: TagPath|
                    built_paths(w1).union(built_paths(w2)).contains(q) && p == seq![x] + q;
                if built_paths(w1).contains(q) {
                    assert(graft(seq![x], built_paths(w1)).contains(p));
                } else {
                    assert(graft(seq![x], built_paths(w2)).contains(p));
                }
            }
            if graft(seq![x], built_paths(w1)).contains(p) {
                let q = choose|q: TagPath| built_paths(w1).contains(q) && p == seq![x] + q;
                assert(built_paths(w1).union(built_paths(w2)).contains(q));
                assert(graft(seq![x], built_paths(w1).union(built_paths(w2))).contains(p));
            }
            if graft(seq![x], built_paths(w2)).contains(p) {
                let q = choose|q: TagPath| built_paths(w2).contains(q) && p == seq![x] + q;
                assert(built_paths(w1).union(built_paths(w2)).contains(q));
                assert(graft(seq![x], built_paths(w1).union(built_paths(w2))).contains(p));
            }
        }
    }
    assert(run_from(s, cur, block(x, w1) + block(x, w2)).0 =~= run_from(
        s,
        cur,
        block(x, w1 + w2),
    ).0);
}

/// Robustness to extra closes: a stray close before any open is a no-op; the
/// tree and the position are exactly those of the remaining input.
pub proof fn lemma_stray_close(x: Seq<char>, es: Seq<Ev>)
    ensures
        run(seq![Ev::Close(x)] + es) == run(es),
{
    let c: Seq<Ev> = seq![Ev::Close(x)];
    lemma_run_concat(init_paths(), Seq::empty(), c, es);
    assert(c.drop_last() =~= Seq::<Ev>::empty());
    assert(run_from(init_paths(), Seq::<Seq<char>>::empty(), Seq::<Ev>::empty()) == (
        init_paths(),
        Seq::<Seq<char>>::empty(),
    ));
    assert(run_from(init_paths(), Seq::empty(), c) == (init_paths(), Seq::<Seq<char>>::empty()));
}

/// Depth: over well-nested input, the machine's depth after any prefix is
/// the prefix's nesting excess, so the deepest position reached is the
/// input's maximum nesting depth.
pub proof fn lemma_depth_tracks_nesting(es: Seq<Ev>, i: int)
    requires
        never_underflows(es),
        0 <= i <= es.len(),
    ensures
        run(es.take(i)).1.len() == count_opens(es.take(i)) - count_closes(es.take(i)),
{
    lemma_nu_prefix(es, i);
    lemma_depth(es.take(i));
}

/// The deepest position the machine reaches over a sequence of events.
pub open spec fn max_depth(es: Seq<Ev>) -> int
    decreases es.len(),
{
    if es.len() == 0 {
        0
    } else if run(es).1.len() > max_depth(es.drop_last()) {
        run(es).1.len() as int
    } else {
        max_depth(es.drop_last())
    }
}

/// The maximum nesting depth of the input: the largest excess of opens over
/// closes reached by any prefix.
pub open spec fn max_nesting(es: Seq<Ev>) -> int
    decreases es.len(),
{
    if es.len() == 0 {
        0
    } else if count_opens(es) - count_closes(es) > max_nesting(es.drop_last()) {
        count_opens(es) - count_closes(es)
    } else {
        max_nesting(es.drop_last())
    }
}

/// Depth: over well-nested input, the maximum position depth reached during
/// construction equals the maximum nesting depth of the input.
pub proof fn lemma_max_depth_is_max_nesting(es: Seq<Ev>)
    requires
        never_underflows(es),
    ensures
        max_depth(es) == max_nesting(es),
    decreases es.len(),
{
    lemma_depth(es);
    if es.len() > 0 {
        let es0 = es.drop_last();
        assert(es0 =~= es.take(es.len() - 1));
        lemma_nu_prefix(es, es.len() - 1);
        lemma_max_depth_is_max_nesting(es0);
    }
}

/// A fully balanced sequence brings the builder back to the root.
pub proof fn lemma_balanced_returns_to_root(es: Seq<Ev>)
    requires
        balanced(es),
    ensures
        run(es).1.len() == 0,
{
    lemma_depth(es);
}

/// Determinism: the built tree is a function of the event sequence alone, so
/// any two well-formed trees whose paths both match what the events build
/// have equal path sets (and so are equal under the structural equality).
pub proof fn lemma_deterministic(es: Seq<Ev>, a: Node, b: Node)
    requires
        a.wf(),
        b.wf(),
        a.paths() == built_paths(es),
        b.paths() == built_paths(es),
    ensures
        a.paths() == b.paths(),
{
}

} // verus!

