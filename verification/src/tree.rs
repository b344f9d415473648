use vstd::prelude::*;
use vstd::string::StringExecFns;
use crate::model::TagPath;

verus! {

/// One tree vertex: one distinct tag name at one structural position.  It
/// owns its children, each child paired with the name under which it hangs.
pub struct Node {
    pub children: Vec<(String, Node)>,
}

/// No two entries of a children list carry the same name.
pub open spec fn unique_names(s: Seq<(String, Node)>) -> bool {
    forall|i: int, j: int| 0 <= i < j < s.len() ==> s[i].0@ != s[j].0@
}

/// Every node of every entry of `s` is well-formed.
pub open spec fn wf_entries(s: Seq<(String, Node)>) -> bool
    decreases s,
{
    if s.len() == 0 {
        true
    } else {
        wf_entries(s.drop_last()) && s.last().1.wf()
    }
}

/// Whether following the names of `p`, one child link per name, stays inside
/// the tree rooted at `n`.
pub open spec fn has_path(n: Node, p: TagPath) -> bool
    decreases p.len(),
{
    p.len() == 0 || (exists|i: int|
        0 <= i < n.children@.len() && #[trigger] n.children@[i].0@ == p[0] && has_path(
            n.children@[i].1,
            p.skip(1),
        ))
}

impl Node {
    /// Well-formed: sibling names are unique, at every level of the tree.
    pub open spec fn wf(self) -> bool
        decreases self,
    {
        unique_names(self.children@) && wf_entries(self.children@)
    }

    /// The mathematical value of the tree: the set of name paths that lead
    /// from this node to one of its descendants (the empty path included).
    /// For well-formed trees this determines the tree up to the recursive
    /// children-map equality that `eq` decides.
    pub open spec fn paths(self) -> Set<TagPath> {
        Set::new(|p: TagPath| has_path(self, p))
    }
}

/// Each entry of a well-formed children list is itself well-formed.
pub proof fn lemma_wf_entry(s: Seq<(String, Node)>, i: int)
    requires
        wf_entries(s),
        0 <= i < s.len(),
    ensures
        s[i].1.wf(),
    decreases s.len(),
{
    if i < s.len() - 1 {
        lemma_wf_entry(s.drop_last(), i);
        assert(s.drop_last()[i] == s[i]);
    }
}

/// A children list whose entries are all well-formed is well-formed.
pub proof fn lemma_wf_entries_intro(s: Seq<(String, Node)>)
    requires
        forall|i: int| 0 <= i < s.len() ==> (#[trigger] s[i]).1.wf(),
    ensures
        wf_entries(s),
    decreases s.len(),
{
    if s.len() > 0 {
        assert forall|i: int| 0 <= i < s.drop_last().len() implies (
        #[trigger] s.drop_last()[i]).1.wf() by {
            assert(s.drop_last()[i] == s[i]);
        }
        lemma_wf_entries_intro(s.drop_last());
        assert(s.last() == s[s.len() - 1]);
    }
}

/// In a well-formed node, a path that starts with the name of entry `i`
/// continues, if at all, through entry `i` alone.
pub proof fn lemma_unique_step(n: Node, i: int, p: TagPath)
    requires
        n.wf(),
        0 <= i < n.children@.len(),
        p.len() > 0,
        n.children@[i].0@ == p[0],
    ensures
        has_path(n, p) == has_path(n.children@[i].1, p.skip(1)),
{
    if has_path(n, p) {
        let j = choose|j: int|
            0 <= j < n.children@.len() && #[trigger] n.children@[j].0@ == p[0] && has_path(
                n.children@[j].1,
                p.skip(1),
            );
        assert(j == i);
    }
}

impl Node {
    /// Structural equality of trees: the children mappings are recursively
    /// equal, name for name and subtree for subtree, regardless of the order
    /// in which entries were inserted.  For well-formed trees this is the
    /// same as having equal sets of name paths, which is what it returns.
    pub fn eq(&self, other: &Node) -> (r: bool)
        requires
            self.wf(),
            other.wf(),
        ensures
            r == (self.paths() == other.paths()),
        decreases *self,
    {
        let n = self.children.len();
        let m = other.children.len();
        let mut i: usize = 0;
        while i < n
            invariant
                self.wf(),
                other.wf(),
                n == self.children@.len(),
                m == other.children@.len(),
                i <= n,
                forall|k: int|
                    0 <= k < i ==> exists|j: int|
                        0 <= j < m && other.children@[j].0@ == (#[trigger] self.children@[k]).0@
                            && self.children@[k].1.paths() == other.children@[j].1.paths(),
            decreases n - i,
        {
            let mut j: usize = 0;
            let mut found: Option<usize> = None;
            while j < m
                invariant
                    i < n,
                    n == self.children@.len(),
                    m == other.children@.len(),
                    j <= m,
                    match found {
                        Some(jj) => 0 <= jj < m && other.children@[jj as int].0@
                            == self.children@[i as int].0@,
                        None => forall|k: int|
                            0 <= k < j ==> (#[trigger] other.children@[k]).0@
                                != self.children@[i as int].0@,
                    },
                decreases m - j,
            {
                if found.is_none() && other.children[j].0 == self.children[i].0 {
                    found = Some(j);
                }
                j += 1;
            }
            match found {
                None => {
                    proof {
                        let nm = self.children@[i as int].0@;
                        let p: TagPath = seq![nm];
                        assert(p[0] == nm && p.skip(1).len() == 0);
                        assert(has_path(self.children@[i as int].1, p.skip(1)));
                        assert(has_path(*self, p));
                        if has_path(*other, p) {
                            let jj = choose|jj: int|
                                0 <= jj < other.children@.len()
                                    && #[trigger] other.children@[jj].0@ == p[0] && has_path(
                                    other.children@[jj].1,
                                    p.skip(1),
                                );
                            assert(false);
                        }
                        assert(self.paths().contains(p) && !other.paths().contains(p));
                    }
                    return false;
                },
                Some(j2) => {
                    proof {
                        lemma_wf_entry(self.children@, i as int);
                        lemma_wf_entry(other.children@, j2 as int);
                        assert(decreases_to!(*self => self.children@[i as int].1));
                    }
                    let eqc = self.children[i].1.eq(&other.children[j2].1);
                    if !eqc {
                        proof {
                            let a = self.children@[i as int].1;
                            let b = other.children@[j2 as int].1;
                            assert(exists|q: TagPath|
                                a.paths().contains(q) != b.paths().contains(q)) by {
                                if forall|q: TagPath|
                                    #![trigger a.paths().contains(q)]
                                    a.paths().contains(q) == b.paths().contains(q) {
                                    assert(a.paths() =~= b.paths());
                                }
                            }
                            let q = choose|q: TagPath|
                                a.paths().contains(q) != b.paths().contains(q);
                            let nm = self.children@[i as int].0@;
                            let p = seq![nm] + q;
                            assert(p.len() > 0 && p[0] == nm);
                            assert(p.skip(1) =~= q);
                            lemma_unique_step(*self, i as int, p);
                            lemma_unique_step(*other, j2 as int, p);
                            assert(has_path(*self, p) == has_path(a, q));
                            assert(has_path(*other, p) == has_path(b, q));
                            assert(self.paths().contains(p) != other.paths().contains(p));
                        }
                        return false;
                    }
                    i += 1;
                },
            }
        }
        let mut j: usize = 0;
        while j < m
            invariant
                self.wf(),
                other.wf(),
                n == self.children@.len(),
                m == other.children@.len(),
                j <= m,
                forall|k: int|
                    0 <= k < n ==> exists|jj: int|
                        0 <= jj < m && other.children@[jj].0@ == (#[trigger] self.children@[k]).0@
                            && self.children@[k].1.paths() == other.children@[jj].1.paths(),
                forall|k: int|
                    0 <= k < j ==> exists|ii: int|
                        0 <= ii < n && self.children@[ii].0@ == (
                        #[trigger] other.children@[k]).0@,
            decreases m - j,
        {
            let mut i2: usize = 0;
            let mut found: Option<usize> = None;
            while i2 < n
                invariant
                    j < m,
                    n == self.children@.len(),
                    m == other.children@.len(),
                    i2 <= n,
                    match found {
                        Some(ii) => 0 <= ii < n && self.children@[ii as int].0@
                            == other.children@[j as int].0@,
                        None => forall|k: int|
                            0 <= k < i2 ==> (#[trigger] self.children@[k]).0@
                                != other.children@[j as int].0@,
                    },
                decreases n - i2,
            {
                if found.is_none() && self.children[i2].0 == other.children[j].0 {
                    found = Some(i2);
                }
                i2 += 1;
            }
            if found.is_none() {
                proof {
                    let nm = other.children@[j as int].0@;
                    let p: TagPath = seq![nm];
                    assert(p[0] == nm && p.skip(1).len() == 0);
                    assert(has_path(other.children@[j as int].1, p.skip(1)));
                    assert(has_path(*other, p));
                    if has_path(*self, p) {
                        let ii = choose|ii: int|
                            0 <= ii < self.children@.len() && #[trigger] self.children@[ii].0@
                                == p[0] && has_path(self.children@[ii].1, p.skip(1));
                        assert(false);
                    }
                    assert(other.paths().contains(p) && !self.paths().contains(p));
                }
                return false;
            }
            j += 1;
        }
        proof {
            assert forall|p: TagPath| has_path(*self, p) == has_path(*other, p) by {
                if p.len() > 0 {
                    if has_path(*self, p) {
                        let ii = choose|ii: int|
                            0 <= ii < self.children@.len() && #[trigger] self.children@[ii].0@
                                == p[0] && has_path(self.children@[ii].1, p.skip(1));
                        let jj = choose|jj: int|
                            0 <= jj < m && other.children@[jj].0@ == self.children@[ii].0@
                                && self.children@[ii].1.paths() == other.children@[jj].1.paths();
                        assert(self.children@[ii].1.paths().contains(p.skip(1)));
                        assert(other.children@[jj].1.paths().contains(p.skip(1)));
                        assert(other.children@[jj].0@ == p[0] && has_path(
                            other.children@[jj].1,
                            p.skip(1),
                        ));
                        assert(has_path(*other, p));
                    }
                    if has_path(*other, p) {
                        let jj = choose|jj: int|
                            0 <= jj < other.children@.len() && #[trigger] other.children@[jj].0@
                                == p[0] && has_path(other.children@[jj].1, p.skip(1));
                        let ii = choose|ii: int|
                            0 <= ii < n && self.children@[ii].0@ == other.children@[jj].0@;
                        let jj2 = choose|jj2: int|
                            0 <= jj2 < m && other.children@[jj2].0@ == self.children@[ii].0@
                                && self.children@[ii].1.paths() == other.children@[jj2].1.paths();
                        assert(jj2 == jj);
                        assert(other.children@[jj].1.paths().contains(p.skip(1)));
                        assert(self.children@[ii].1.paths().contains(p.skip(1)));
                        assert(has_path(self.children@[ii].1, p.skip(1)));
                        assert(self.children@[ii].0@ == p[0] && has_path(
                            self.children@[ii].1,
                            p.skip(1),
                        ));
                        assert(has_path(*self, p));
                    }
                }
            }
            assert(self.paths() =~= other.paths());
        }
        true
    }
}

/// The indentation written before a tag at a nesting depth: two spaces per
/// level.
pub open spec fn indent_chars(depth: nat) -> Seq<char>
    decreases depth,
{
    if depth == 0 {
        Seq::empty()
    } else {
        indent_chars((depth - 1) as nat) + "  "@
    }
}

/// The rendered text of one child entry at the given indentation: a
/// self-closing tag for a leaf, an open/close pair around the recursively
/// rendered children otherwise.
pub open spec fn render_one(e: (String, Node), ind: Seq<char>) -> Seq<char>
    decreases e,
{
    if e.1.children@.len() == 0 {
        ind + "<"@ + e.0@ + " />\n"@
    } else {
        ind + "<"@ + e.0@ + ">\n"@ + render_node(e.1, ind + "  "@) + ind + "</"@ + e.0@ + ">\n"@
    }
}

/// The rendered text of a children list, entry after entry.
pub open spec fn render_entries(s: Seq<(String, Node)>, ind: Seq<char>) -> Seq<char>
    decreases s,
{
    if s.len() == 0 {
        Seq::empty()
    } else {
        render_entries(s.drop_last(), ind) + render_one(s.last(), ind)
    }
}

/// The rendered text of a whole node: its children, in order, at the given
/// indentation.
pub open spec fn render_node(n: Node, ind: Seq<char>) -> Seq<char>
    decreases n,
{
    render_entries(n.children@, ind)
}

impl Node {
    /// Render the tree below this node as indented text, each child one
    /// level deeper than the given depth.  A read-only traversal.
    pub fn print(&self, depth: usize) -> (out: String)
        ensures
            out@ == render_node(*self, indent_chars(depth as nat)),
    {
        let mut ind = String::new();
        let mut k: usize = 0;
        while k < depth
            invariant
                k <= depth,
                ind@ == indent_chars(k as nat),
            decreases depth - k,
        {
            ind.append("  ");
            k += 1;
        }
        self.print_with(&ind)
    }

    /// Render with an explicit indentation prefix.
    fn print_with(&self, ind: &String) -> (out: String)
        ensures
            out@ == render_node(*self, ind@),
        decreases *self,
    {
        let mut out = String::new();
        let n = self.children.len();
        let mut i: usize = 0;
        while i < n
            invariant
                n == self.children@.len(),
                i <= n,
                out@ == render_entries(self.children@.take(i as int), ind@),
            decreases n - i,
        {
            proof {
                assert(decreases_to!(*self => self.children@[i as int].1));
            }
            out.append(ind.as_str());
            out.append("<");
            out.append(self.children[i].0.as_str());
            if self.children[i].1.children.len() == 0 {
                out.append(" />\n");
            } else {
                out.append(">\n");
                let mut ind2 = ind.clone();
                ind2.append("  ");
                let sub = self.children[i].1.print_with(&ind2);
                out.append(sub.as_str());
                out.append(ind.as_str());
                out.append("</");
                out.append(self.children[i].0.as_str());
                out.append(">\n");
            }
            proof {
                let e = self.children@[i as int];
                let base = render_entries(self.children@.take(i as int), ind@);
                assert(self.children@.take(i + 1).drop_last() =~= self.children@.take(i as int));
                assert(self.children@.take(i + 1).last() == e);
                assert(render_entries(self.children@.take(i + 1), ind@) == base + render_one(
                    e,
                    ind@,
                ));
                if e.1.children@.len() == 0 {
                    assert(render_one(e, ind@) == ind@ + "<"@ + e.0@ + " />\n"@);
                } else {
                    assert(render_one(e, ind@) == ind@ + "<"@ + e.0@ + ">\n"@ + render_node(
                        e.1,
                        ind@ + "  "@,
                    ) + ind@ + "</"@ + e.0@ + ">\n"@);
                }
                assert(out@ =~= render_entries(self.children@.take(i + 1), ind@));
            }
            i += 1;
        }
        proof {
            assert(self.children@.take(n as int) =~= self.children@);
        }
        out
    }
}

/// A node without children admits only the empty path.
pub proof fn lemma_leaf_paths(n: Node)
    requires
        n.children@.len() == 0,
    ensures
        n.paths() == Set::<TagPath>::empty().insert(Seq::empty()),
{
    assert forall|p: TagPath| has_path(n, p) implies p == Seq::<Seq<char>>::empty() by {
        assert(p.len() == 0);
        assert(p =~= Seq::<Seq<char>>::empty());
    }
    assert(n.paths() =~= Set::<TagPath>::empty().insert(Seq::empty()));
}

} // verus!
