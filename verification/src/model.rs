use vstd::prelude::*;
use crate::events::Ev;

verus! {

/// A path: the chain of tag names leading from the root down to a node.
pub type TagPath = Seq<Seq<char>>;

/// One step of the position machine over the set-of-paths view of the tree.
///
/// `s` is the set of paths of every node created so far (the root is the
/// empty path); `cur` is the path of the current position.  Opening a tag
/// records the child's path (creating it if it was absent: sets have no
/// duplicates, so a repeated sibling name collapses into the same path) and
/// descends; closing ascends, except at the root, where it is a no-op.
pub open spec fn step(s: Set<TagPath>, cur: TagPath, e: Ev) -> (Set<TagPath>, TagPath) {
    match e {
        Ev::Open(name) => (s.insert(cur.push(name)), cur.push(name)),
        Ev::Close(_) => if cur.len() == 0 {
            (s, cur)
        } else {
            (s, cur.drop_last())
        },
    }
}

/// Run the machine over a whole event sequence from a given state.
pub open spec fn run_from(s: Set<TagPath>, cur: TagPath, es: Seq<Ev>) -> (Set<TagPath>, TagPath)
    decreases es.len(),
{
    if es.len() == 0 {
        (s, cur)
    } else {
        let prev = run_from(s, cur, es.drop_last());
        step(prev.0, prev.1, es.last())
    }
}

/// The initial state: only the root exists, and it is the current position.
pub open spec fn init_paths() -> Set<TagPath> {
    Set::empty().insert(Seq::empty())
}

/// Run the machine from the initial state.
pub open spec fn run(es: Seq<Ev>) -> (Set<TagPath>, TagPath) {
    run_from(init_paths(), Seq::empty(), es)
}

/// The set of name paths of the tree that an event sequence builds.
pub open spec fn built_paths(es: Seq<Ev>) -> Set<TagPath> {
    run(es).0
}

/// How many events of the sequence open an element.
pub open spec fn count_opens(es: Seq<Ev>) -> int
    decreases es.len(),
{
    if es.len() == 0 {
        0
    } else {
        count_opens(es.drop_last()) + if es.last() is Open {
            1int
        } else {
            0int
        }
    }
}

/// How many events of the sequence close an element.
pub open spec fn count_closes(es: Seq<Ev>) -> int
    decreases es.len(),
{
    if es.len() == 0 {
        0
    } else {
        count_closes(es.drop_last()) + if es.last() is Close {
            1int
        } else {
            0int
        }
    }
}

/// No prefix of the sequence closes more elements than it has opened.
pub open spec fn never_underflows(es: Seq<Ev>) -> bool {
    forall|i: int|
        0 <= i <= es.len() ==> count_closes(#[trigger] es.take(i)) <= count_opens(es.take(i))
}

/// Well-nested and fully closed.
pub open spec fn balanced(es: Seq<Ev>) -> bool {
    never_underflows(es) && count_opens(es) == count_closes(es)
}

} // verus!
