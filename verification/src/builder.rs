use vstd::prelude::*;
use crate::events::{Ev, Event, events_view};
use crate::model::{TagPath, built_paths, init_paths, run, step};
use crate::tree::{Node, has_path, lemma_leaf_paths, lemma_wf_entries_intro, lemma_wf_entry, unique_names, wf_entries};

verus! {

/// The names under which each suspended ancestor's open child hangs, from the
/// outermost open element down to the innermost.
pub open spec fn spine(st: Seq<(String, Node)>) -> TagPath {
    st.map_values(|e: (String, Node)| e.0@)
}

/// Whether `p` is a path of the tree obtained by hanging `cur` back under the
/// chain of suspended ancestors `st` (each entry holds the ancestor node with
/// its open child taken out, and the name that child hangs under).
pub open spec fn zip_has(st: Seq<(String, Node)>, cur: Node, p: TagPath) -> bool
    decreases st.len(),
{
    if st.len() == 0 {
        has_path(cur, p)
    } else {
        has_path(st[0].1, p) || (p.len() > 0 && p[0] == st[0].0@ && zip_has(
            st.skip(1),
            cur,
            p.skip(1),
        ))
    }
}

/// `n` has no child entry named `name`.
pub open spec fn lacks_name(n: Node, name: Seq<char>) -> bool {
    forall|i: int| 0 <= i < n.children@.len() ==> (#[trigger] n.children@[i]).0@ != name
}

/// Adding one child entry at the end adds exactly the paths through it.
proof fn lemma_attach_has(parent: Node, name: String, child: Node, att: Node, p: TagPath)
    requires
        att.children@ == parent.children@.push((name, child)),
    ensures
        has_path(att, p) == (has_path(parent, p) || (p.len() > 0 && p[0] == name@ && has_path(
            child,
            p.skip(1),
        ))),
{
    if p.len() > 0 {
        let m = parent.children@.len();
        if has_path(att, p) {
            let i = choose|i: int|
                0 <= i < att.children@.len() && #[trigger] att.children@[i].0@ == p[0] && has_path(
                    att.children@[i].1,
                    p.skip(1),
                );
            if i < m {
                assert(parent.children@[i].0@ == p[0] && has_path(
                    parent.children@[i].1,
                    p.skip(1),
                ));
            }
        }
        if has_path(parent, p) {
            let i = choose|i: int|
                0 <= i < parent.children@.len() && #[trigger] parent.children@[i].0@ == p[0]
                    && has_path(parent.children@[i].1, p.skip(1));
            assert(att.children@[i].0@ == p[0] && has_path(att.children@[i].1, p.skip(1)));
        }
        if p[0] == name@ && has_path(child, p.skip(1)) {
            assert(att.children@[m as int].0@ == p[0] && has_path(
                att.children@[m as int].1,
                p.skip(1),
            ));
        }
    }
}

/// Removing the child entry at `j` removes exactly the paths through it.
proof fn lemma_remove_has(orig: Node, j: int, rest: Node, p: TagPath)
    requires
        0 <= j < orig.children@.len(),
        rest.children@ == orig.children@.remove(j),
    ensures
        has_path(orig, p) == (has_path(rest, p) || (p.len() > 0 && p[0] == orig.children@[j].0@
            && has_path(orig.children@[j].1, p.skip(1)))),
{
    if p.len() > 0 {
        let m = orig.children@.len();
        if has_path(orig, p) {
            let i = choose|i: int|
                0 <= i < orig.children@.len() && #[trigger] orig.children@[i].0@ == p[0]
                    && has_path(orig.children@[i].1, p.skip(1));
            if i != j {
                let i2: int = if i < j {
                    i
                } else {
                    i - 1
                };
                assert(rest.children@[i2] == orig.children@[i]);
                assert(rest.children@[i2].0@ == p[0] && has_path(
                    rest.children@[i2].1,
                    p.skip(1),
                ));
            }
        }
        if has_path(rest, p) {
            let i = choose|i: int|
                0 <= i < rest.children@.len() && #[trigger] rest.children@[i].0@ == p[0]
                    && has_path(rest.children@[i].1, p.skip(1));
            let i2: int = if i < j {
                i
            } else {
                i + 1
            };
            assert(orig.children@[i2] == rest.children@[i]);
            assert(orig.children@[i2].0@ == p[0] && has_path(orig.children@[i2].1, p.skip(1)));
        }
        if p[0] == orig.children@[j].0@ && has_path(orig.children@[j].1, p.skip(1)) {
            assert(has_path(orig, p));
        }
    }
}

/// Removing a child entry keeps the node well-formed.
proof fn lemma_remove_wf(orig: Node, j: int, rest: Node)
    requires
        orig.wf(),
        0 <= j < orig.children@.len(),
        rest.children@ == orig.children@.remove(j),
    ensures
        rest.wf(),
{
    assert forall|a: int, b: int| 0 <= a < b < rest.children@.len() implies rest.children@[a].0@
        != rest.children@[b].0@ by {
        let a2: int = if a < j {
            a
        } else {
            a + 1
        };
        let b2: int = if b < j {
            b
        } else {
            b + 1
        };
        assert(rest.children@[a] == orig.children@[a2]);
        assert(rest.children@[b] == orig.children@[b2]);
        assert(orig.children@[a2].0@ != orig.children@[b2].0@);
    }
    assert forall|i: int| 0 <= i < rest.children@.len() implies (
    #[trigger] rest.children@[i]).1.wf() by {
        let i2: int = if i < j {
            i
        } else {
            i + 1
        };
        assert(rest.children@[i] == orig.children@[i2]);
        lemma_wf_entry(orig.children@, i2);
    }
    lemma_wf_entries_intro(rest.children@);
}

/// The splitting of a node `cur` into a suspended form `sus` plus an open
/// child `child` under `name`: paths of `cur`, together with the child's own
/// path, are exactly paths of `sus` plus paths through the child.
spec fn split_ok(cur: Node, name: Seq<char>, sus: Node, child: Node) -> bool {
    forall|q: TagPath|
        #![trigger has_path(sus, q)]
        #![trigger has_path(cur, q)]
        ((has_path(sus, q) || (q.len() > 0 && q[0] == name && has_path(child, q.skip(1)))) == (
        has_path(cur, q) || q == seq![name]))
}

/// Opening: suspending `cur` on the stack and descending into `child` turns
/// the zipper's path set into the old one plus the child's own path.
proof fn lemma_zip_open(
    st: Seq<(String, Node)>,
    cur: Node,
    sname: String,
    sus: Node,
    child: Node,
    p: TagPath,
)
    requires
        split_ok(cur, sname@, sus, child),
    ensures
        zip_has(st.push((sname, sus)), child, p) == (zip_has(st, cur, p) || p == spine(st).push(
            sname@,
        )),
    decreases st.len(),
{
    if st.len() == 0 {
        assert((st.push((sname, sus))).skip(1) =~= Seq::<(String, Node)>::empty());
        assert((st.push((sname, sus)))[0] == (sname, sus));
        assert(zip_has(Seq::<(String, Node)>::empty(), child, p.skip(1)) == has_path(
            child,
            p.skip(1),
        ));
        assert(zip_has(st.push((sname, sus)), child, p) == (has_path(sus, p) || (p.len() > 0
            && p[0] == sname@ && has_path(child, p.skip(1)))));
        assert((has_path(sus, p) || (p.len() > 0 && p[0] == sname@ && has_path(child, p.skip(1))))
            == (has_path(cur, p) || p == seq![sname@]));
        assert(spine(st).push(sname@) =~= seq![sname@]);
    } else {
        let e = (sname, sus);
        assert((st.push(e)).skip(1) =~= st.skip(1).push(e));
        assert((st.push(e))[0] == st[0]);
        lemma_zip_open(st.skip(1), cur, sname, sus, child, p.skip(1));
        // relate "p is the new spine path" with its head/tail decomposition
        let sp = spine(st).push(sname@);
        let spt = spine(st.skip(1)).push(sname@);
        assert(spine(st).len() == st.len());
        if p == sp {
            assert(p.len() == st.len() + 1);
            assert(p[0] == spine(st)[0]);
            assert(spine(st)[0] == st[0].0@);
            assert(p.skip(1) =~= spt) by {
                assert forall|k: int| 0 <= k < spt.len() implies p.skip(1)[k] == spt[k] by {
                    if k < st.len() - 1 {
                        assert(p.skip(1)[k] == sp[k + 1]);
                        assert(sp[k + 1] == spine(st)[k + 1]);
                        assert(spt[k] == spine(st.skip(1))[k]);
                        assert(spine(st.skip(1))[k] == st.skip(1)[k].0@);
                        assert(st.skip(1)[k] == st[k + 1]);
                        assert(spine(st)[k + 1] == st[k + 1].0@);
                    } else {
                        assert(k == st.len() - 1);
                        assert(p.skip(1)[k] == sp[st.len() as int]);
                    }
                }
            }
        }
        if p.len() > 0 && p[0] == st[0].0@ && p.skip(1) == spt {
            assert(p =~= sp) by {
                assert(p.len() == 1 + spt.len());
                assert forall|k: int| 0 <= k < sp.len() implies p[k] == sp[k] by {
                    if k == 0 {
                        assert(spine(st)[0] == st[0].0@);
                    } else if k < st.len() {
                        assert(p[k] == p.skip(1)[k - 1]);
                        assert(spt[k - 1] == spine(st.skip(1))[k - 1]);
                        assert(spine(st.skip(1))[k - 1] == st.skip(1)[k - 1].0@);
                        assert(st.skip(1)[k - 1] == st[k]);
                        assert(sp[k] == spine(st)[k]);
                        assert(spine(st)[k] == st[k].0@);
                    } else {
                        assert(k == st.len());
                        assert(p[k] == p.skip(1)[k - 1]);
                        assert(spt[k - 1] == sname@);
                        assert(sp[k] == sname@);
                    }
                }
            }
        }
    }
}

/// Closing: hanging `cur` back under the innermost suspended ancestor leaves
/// the zipper's path set unchanged.
proof fn lemma_zip_close(st: Seq<(String, Node)>, cur: Node, att: Node, p: TagPath)
    requires
        st.len() > 0,
        att.children@ == st.last().1.children@.push((st.last().0, cur)),
    ensures
        zip_has(st.drop_last(), att, p) == zip_has(st, cur, p),
    decreases st.len(),
{
    if st.len() == 1 {
        lemma_attach_has(st[0].1, st[0].0, cur, att, p);
        assert(st.drop_last().len() == 0);
        assert(zip_has(st.drop_last(), att, p) == has_path(att, p));
        assert(st.skip(1).len() == 0);
        assert(zip_has(st.skip(1), cur, p.skip(1)) == has_path(cur, p.skip(1)));
        assert(st.last() == st[0]);
        assert(zip_has(st, cur, p) == (has_path(st[0].1, p) || (p.len() > 0 && p[0] == st[0].0@
            && has_path(cur, p.skip(1)))));
    } else {
        assert((st.drop_last()).skip(1) =~= st.skip(1).drop_last());
        assert((st.drop_last())[0] == st[0]);
        assert(st.skip(1).last() == st.last());
        lemma_zip_close(st.skip(1), cur, att, p.skip(1));
        assert(zip_has(st.drop_last(), att, p) == (has_path(st[0].1, p) || (p.len() > 0 && p[0]
            == st[0].0@ && zip_has(st.skip(1).drop_last(), att, p.skip(1)))));
        assert(zip_has(st, cur, p) == (has_path(st[0].1, p) || (p.len() > 0 && p[0] == st[0].0@
            && zip_has(st.skip(1), cur, p.skip(1)))));
    }
}

/// The streaming tree builder: a current node plus the stack of suspended
/// ancestors of the currently open elements.  The root is the permanent floor
/// of the stack: a close with nothing open is a no-op.
pub struct Builder {
    pub cur: Node,
    pub stack: Vec<(String, Node)>,
}

impl Builder {
    /// The path of the current position: the names of the open elements.
    pub open spec fn pos(self) -> TagPath {
        spine(self.stack@)
    }

    /// The set of name paths of the tree built so far.
    pub open spec fn paths(self) -> Set<TagPath> {
        Set::new(|p: TagPath| zip_has(self.stack@, self.cur, p))
    }

    /// Internal well-formedness: every node is well-formed and each suspended
    /// ancestor lacks the name its open child hangs under.
    pub open spec fn inv(self) -> bool {
        &&& self.cur.wf()
        &&& forall|k: int|
            0 <= k < self.stack@.len() ==> (#[trigger] self.stack@[k]).1.wf() && lacks_name(
                self.stack@[k].1,
                self.stack@[k].0@,
            )
    }

    /// A fresh builder: a bare root, which is the current position.
    pub fn new() -> (b: Builder)
        ensures
            b.inv(),
            b.pos() == Seq::<Seq<char>>::empty(),
            b.paths() == init_paths(),
    {
        let b = Builder { cur: Node { children: Vec::new() }, stack: Vec::new() };
        proof {
            assert(b.cur.wf());
            assert forall|p: TagPath| zip_has(b.stack@, b.cur, p) == has_path(b.cur, p) by {}
            assert(b.paths() =~= b.cur.paths());
            lemma_leaf_paths(b.cur);
            assert(b.pos() =~= Seq::<Seq<char>>::empty());
        }
        b
    }

    /// Move down into the child named `name` of the current node, creating it
    /// first if no child of that name exists yet; a repeated sibling name
    /// reuses the existing child and keeps its subtree.
    pub fn open_tag(self, name: String) -> (r: Builder)
        requires
            self.inv(),
        ensures
            r.inv(),
            r.pos() == self.pos().push(name@),
            r.paths() == self.paths().insert(self.pos().push(name@)),
    {
        let Builder { mut cur, mut stack } = self;
        let ghost cur0 = cur;
        let n = cur.children.len();
        let mut i: usize = 0;
        let mut found: Option<usize> = None;
        while i < n
            invariant
                n == cur.children@.len(),
                i <= n,
                cur == cur0,
                match found {
                    Some(j) => 0 <= j < n && cur.children@[j as int].0@ == name@,
                    None => forall|k: int|
                        0 <= k < i ==> (#[trigger] cur.children@[k]).0@ != name@,
                },
            decreases n - i,
        {
            if found.is_none() && cur.children[i].0 == name {
                found = Some(i);
            }
            i += 1;
        }
        let child: Node;
        let sname: String;
        match found {
            Some(j) => {
                let pair = cur.children.remove(j);
                sname = pair.0;
                child = pair.1;
                proof {
                    assert(sname@ == name@);
                    assert forall|q: TagPath| ((has_path(cur, q) || (q.len() > 0 && q[0] == name@
                        && has_path(child, q.skip(1)))) == (has_path(cur0, q) || q == seq![
                        name@,
                    ])) by {
                        lemma_remove_has(cur0, j as int, cur, q);
                        if q == seq![name@] {
                            assert(q.skip(1).len() == 0);
                            assert(has_path(child, q.skip(1)));
                            assert(q[0] == name@);
                        }
                        if q.len() > 0 && q[0] == name@ && q.skip(1).len() == 0 && has_path(
                            child,
                            q.skip(1),
                        ) {
                        }
                    }
                    assert(split_ok(cur0, name@, cur, child));
                    lemma_remove_wf(cur0, j as int, cur);
                    lemma_wf_entry(cur0.children@, j as int);
                    assert forall|k: int| 0 <= k < cur.children@.len() implies (
                    #[trigger] cur.children@[k]).0@ != name@ by {
                        let k2: int = if k < j {
                            k
                        } else {
                            k + 1
                        };
                        assert(cur.children@[k] == cur0.children@[k2]);
                        if k2 != j {
                            assert(cur0.children@[k2].0@ != cur0.children@[j as int].0@);
                        }
                    }
                }
            },
            None => {
                sname = name;
                child = Node { children: Vec::new() };
                proof {
                    assert(child.wf());
                    assert forall|q: TagPath| ((has_path(cur, q) || (q.len() > 0 && q[0] == name@
                        && has_path(child, q.skip(1)))) == (has_path(cur0, q) || q == seq![
                        name@,
                    ])) by {
                        if q.len() > 0 && q[0] == name@ && has_path(child, q.skip(1)) {
                            assert(q.skip(1).len() == 0);
                            assert(q =~= seq![name@]);
                        }
                        if q == seq![name@] {
                            assert(q.skip(1).len() == 0);
                            assert(has_path(child, q.skip(1)));
                        }
                    }
                    assert(split_ok(cur0, name@, cur, child));
                }
            },
        }
        let ghost sus = cur;
        let ghost st0 = stack@;
        stack.push((sname, cur));
        let r = Builder { cur: child, stack };
        proof {
            assert(r.stack@ == st0.push((sname, sus)));
            assert forall|p: TagPath| #![trigger r.paths().contains(p)] r.paths().contains(p)
                == self.paths().insert(self.pos().push(name@)).contains(p) by {
                lemma_zip_open(st0, cur0, sname, sus, child, p);
                assert(zip_has(r.stack@, r.cur, p) == (zip_has(st0, cur0, p) || p == spine(
                    st0,
                ).push(name@)));
            }
            assert(r.paths() =~= self.paths().insert(self.pos().push(name@)));
            assert(r.pos() =~= self.pos().push(name@)) by {
                assert(spine(st0.push((sname, sus))).len() == st0.len() + 1);
                assert forall|k: int|
                    0 <= k < st0.len() + 1 implies spine(st0.push((sname, sus)))[k] == spine(
                    st0,
                ).push(name@)[k] by {
                    if k < st0.len() {
                        assert(st0.push((sname, sus))[k] == st0[k]);
                    }
                }
            }
            assert forall|k: int| 0 <= k < r.stack@.len() implies (#[trigger] r.stack@[k]).1.wf()
                && lacks_name(r.stack@[k].1, r.stack@[k].0@) by {
                if k < st0.len() {
                    assert(r.stack@[k] == st0[k]);
                    assert(st0[k].1.wf() && lacks_name(st0[k].1, st0[k].0@));
                } else {
                    assert(r.stack@[k] == (sname, sus));
                }
            }
        }
        r
    }

    /// Move back up to the parent of the current node; with nothing open this
    /// is a no-op (a stray close never pops the root away).
    pub fn close_tag(self) -> (r: Builder)
        requires
            self.inv(),
        ensures
            r.inv(),
            r.paths() == self.paths(),
            r.pos() == if self.pos().len() == 0 {
                self.pos()
            } else {
                self.pos().drop_last()
            },
    {
        let Builder { cur, mut stack } = self;
        let ghost st0 = stack@;
        let popped = stack.pop();
        match popped {
            None => {
                let r = Builder { cur, stack };
                proof {
                    assert(st0.len() == 0);
                    assert(r.stack@ == st0);
                    assert(r.paths() =~= self.paths());
                    assert(self.pos().len() == 0);
                }
                r
            },
            Some(pair) => {
                let (pname, mut parent) = pair;
                let ghost parent0 = parent;
                parent.children.push((pname, cur));
                let r = Builder { cur: parent, stack };
                proof {
                    assert(st0.len() > 0);
                    assert(r.stack@ =~= st0.drop_last());
                    assert((pname, parent0) == st0.last());
                    assert(r.cur.children@ == st0.last().1.children@.push((st0.last().0, cur)));
                    assert forall|p: TagPath| zip_has(r.stack@, r.cur, p) == zip_has(
                        st0,
                        cur,
                        p,
                    ) by {
                        lemma_zip_close(st0, cur, r.cur, p);
                    }
                    assert(r.paths() =~= self.paths());
                    // position: the spine loses its last name
                    assert(r.pos() =~= self.pos().drop_last()) by {
                        assert(spine(st0.drop_last()).len() == st0.len() - 1);
                        assert forall|k: int| 0 <= k < st0.len() - 1 implies spine(
                            st0.drop_last(),
                        )[k] == spine(st0).drop_last()[k] by {
                            assert(st0.drop_last()[k] == st0[k]);
                        }
                    }
                    assert(self.pos().len() == st0.len());
                    // the reattached node is well-formed
                    assert(parent0.wf() && lacks_name(parent0, pname@));
                    assert(unique_names(r.cur.children@)) by {
                        assert forall|a: int, b: int|
                            0 <= a < b < r.cur.children@.len() implies r.cur.children@[a].0@
                            != r.cur.children@[b].0@ by {
                            if b < parent0.children@.len() {
                                assert(r.cur.children@[a] == parent0.children@[a]);
                                assert(r.cur.children@[b] == parent0.children@[b]);
                            } else {
                                assert(r.cur.children@[a] == parent0.children@[a]);
                                assert(r.cur.children@[b] == (pname, cur));
                                assert(parent0.children@[a].0@ != pname@);
                            }
                        }
                    }
                    assert(r.cur.children@.drop_last() =~= parent0.children@);
                    assert(r.cur.children@.last() == (pname, cur));
                    assert(wf_entries(r.cur.children@));
                    assert(r.cur.wf());
                    assert forall|k: int| 0 <= k < r.stack@.len() implies (
                    #[trigger] r.stack@[k]).1.wf() && lacks_name(r.stack@[k].1, r.stack@[k].0@) by {
                        assert(r.stack@[k] == st0[k]);
                    }
                }
                r
            },
        }
    }

    /// Process one event: an open descends, a close ascends.  The effect on
    /// the set-of-paths view is exactly one step of the position machine.
    pub fn apply(self, e: Event) -> (r: Builder)
        requires
            self.inv(),
        ensures
            r.inv(),
            (r.paths(), r.pos()) == step(self.paths(), self.pos(), e@),
    {
        match e {
            Event::Open(name) => {
                let r = self.open_tag(name);
                proof {
                    assert((r.paths(), r.pos()) == step(self.paths(), self.pos(), e@));
                }
                r
            },
            Event::Close(_) => {
                let r = self.close_tag();
                proof {
                    assert((r.paths(), r.pos()) == step(self.paths(), self.pos(), e@));
                }
                r
            },
        }
    }

    /// Close everything still open and hand back the root.  The set of paths
    /// is unchanged: unbalanced input yields the partial shape built so far.
    pub fn finish(self) -> (root: Node)
        requires
            self.inv(),
        ensures
            root.wf(),
            root.paths() == self.paths(),
    {
        let mut b = self;
        while b.stack.len() > 0
            invariant
                b.inv(),
                b.paths() == self.paths(),
            decreases b.stack@.len(),
        {
            proof {
                assert(b.pos().len() == b.stack@.len());
            }
            let ghost before = b.stack@.len();
            b = b.close_tag();
            proof {
                assert(b.pos().len() == b.stack@.len());
                assert(b.stack@.len() < before);
            }
        }
        proof {
            assert(b.stack@.len() == 0);
            assert forall|p: TagPath| zip_has(b.stack@, b.cur, p) == has_path(b.cur, p) by {}
            assert(b.cur.paths() =~= b.paths());
        }
        b.cur
    }
}

/// Consume a whole event sequence and return the finished tree: the root's
/// set of name paths is exactly what the position machine builds from the
/// events, and sibling names are unique at every level.
pub fn parse(events: Vec<Event>) -> (root: Node)
    ensures
        root.wf(),
        root.paths() == built_paths(events_view(events@)),
{
    let ghost evs = events_view(events@);
    let mut b = Builder::new();
    proof {
        assert(evs.take(0) =~= Seq::<Ev>::empty());
        assert((b.paths(), b.pos()) == run(evs.take(0)));
    }
    let n = events.len();
    let mut i: usize = 0;
    while i < n
        invariant
            n == events@.len(),
            i <= n,
            b.inv(),
            evs == events_view(events@),
            evs.len() == n,
            (b.paths(), b.pos()) == run(evs.take(i as int)),
        decreases n - i,
    {
        let e = events[i].clone();
        proof {
            assert(e@ == evs[i as int]);
        }
        b = b.apply(e);
        proof {
            assert(evs.take(i + 1).drop_last() =~= evs.take(i as int));
            assert(evs.take(i + 1).last() == evs[i as int]);
        }
        i += 1;
    }
    proof {
        assert(evs.take(n as int) =~= evs);
    }
    b.finish()
}

} // verus!

