//! A trie from key sequences to motions.

use vstd::prelude::*;
use crate::keys::{KeyEvent, same_key};
use crate::commands::Motion;
use crate::scan::{first_from, lemma_first_from, lemma_first_from_is};

verus! {

/// A node of the key trie: the motion that the keys leading here stand for
/// (if any), and the children by key.
pub struct TrieNode {
    pub command: Option<Motion>,
    children: Vec<(KeyEvent, TrieNode)>,
}

impl TrieNode {
    /// The children of the node, with their keys.
    pub closed spec fn kids(self) -> Seq<(KeyEvent, TrieNode)> {
        self.children@
    }

    /// The motion of the node.
    pub closed spec fn motion(self) -> Option<Motion> {
        self.command
    }
}

/// No two children of a node, at any depth, have the same key.
pub closed spec fn distinct_keys(node: TrieNode) -> bool
    decreases node,
{
    &&& forall|a: int, b: int|
        0 <= a < b < node.children@.len() ==> !same_key(
            #[trigger] node.children@[a].0,
            #[trigger] node.children@[b].0,
        )
    &&& forall|a: int| 0 <= a < node.children@.len() ==> distinct_keys(#[trigger] node.children@[a].1)
}

/// `new` keeps every child of `old`, at any depth, with its key and in its
/// place, and adds at most one child after them at each node.
pub closed spec fn keeps_children(old: TrieNode, new: TrieNode) -> bool
    decreases old,
{
    &&& old.children@.len() <= new.children@.len() <= old.children@.len() + 1
    &&& forall|j: int|
        0 <= j < old.children@.len() ==> new.children@[j].0 == old.children@[j].0 && keeps_children(
            #[trigger] old.children@[j].1,
            new.children@[j].1,
        )
}

/// The children of a node that has distinct keys differ in key pairwise.
pub proof fn lemma_distinct_children(node: TrieNode)
    requires
        distinct_keys(node),
    ensures
        forall|a: int, b: int|
            0 <= a < b < node.kids().len() ==> !same_key(#[trigger] node.kids()[a].0, #[trigger] node.kids()[b].0),
{
}

/// What `keeps_children` says of the children of the node itself.
pub proof fn lemma_keeps_children(old: TrieNode, new: TrieNode)
    requires
        keeps_children(old, new),
    ensures
        old.kids().len() <= new.kids().len() <= old.kids().len() + 1,
        forall|j: int| 0 <= j < old.kids().len() ==> #[trigger] new.kids()[j].0 == old.kids()[j].0,
{
    assert forall|j: int| 0 <= j < old.kids().len() implies #[trigger] new.kids()[j].0 == old.kids()[j].0 by {
        assert(keeps_children(old.children@[j].1, new.children@[j].1));
    }
}

proof fn lemma_keeps_self(n: TrieNode)
    ensures
        keeps_children(n, n),
    decreases n,
{
    assert forall|j: int| 0 <= j < n.children@.len() implies keeps_children(#[trigger] n.children@[j].1, n.children@[j].1) by {
        lemma_keeps_self(n.children@[j].1);
    }
}

/// Some child of `node` has the same key as `k`.
pub open spec fn has_child_for(node: TrieNode, k: KeyEvent) -> bool {
    exists|i: int| 0 <= i < node.kids().len() && same_key(k, #[trigger] node.kids()[i].0)
}

/// In a node whose children differ in key, the one-key path of each child's
/// key leads to that child; and a one-key path that leads somewhere has the
/// key of some child.
pub proof fn lemma_one_key_paths(node: TrieNode)
    requires
        distinct_keys(node),
    ensures
        forall|i: int| 0 <= i < node.kids().len() ==> reaches(node, seq![#[trigger] node.kids()[i].0]),
        forall|k: KeyEvent| reaches(node, #[trigger] seq![k]) ==> has_child_for(node, k),
{
    let n = node.kids().len() as int;
    assert forall|i: int| 0 <= i < n implies reaches(node, seq![#[trigger] node.kids()[i].0]) by {
        let k = node.kids()[i].0;
        let q = seq![k];
        assert forall|j: int| 0 <= j < i implies !#[trigger] child_key_is(node, k)(j) by {
            assert(!same_key(node.children@[j].0, node.children@[i].0));
        }
        lemma_first_from_is(0, n, child_key_is(node, k), i);
        assert(q[0] == k);
        assert(child_pos(node, q[0]) == i);
        assert(q.drop_first().len() == 0);
        assert(lookup(node.kids()[i].1, q.drop_first()) == Some(node.kids()[i].1));
        assert(lookup(node, q) == lookup(node.kids()[i].1, q.drop_first()));
    }
    assert forall|k: KeyEvent| reaches(node, #[trigger] seq![k]) implies has_child_for(node, k) by {
        let q = seq![k];
        assert(q[0] == k);
        lemma_first_from(0, n, child_key_is(node, k));
        let i = child_pos(node, k);
        assert(0 <= i < n && same_key(k, node.kids()[i].0));
    }
}

impl Default for TrieNode {
    /// A node with no motion and no children.
    fn default() -> (n: Self)
        ensures
            n.motion() is None,
            n.kids().len() == 0,
            distinct_keys(n),
            forall|q: Seq<KeyEvent>| #[trigger] motion_at(n, q) is None,
            forall|q: Seq<KeyEvent>| #[trigger] reaches(n, q) == (q.len() == 0),
    {
        let n = TrieNode { command: None, children: vec![] };
        proof {
            assert forall|q: Seq<KeyEvent>| q.len() > 0 implies child_pos(n, q[0]) == 0 by {}
        }
        n
    }
}

/// Whether the `i`-th child of `node` is reached by key `e`.
pub open spec fn child_key_is(node: TrieNode, e: KeyEvent) -> spec_fn(int) -> bool {
    |i: int| same_key(e, node.kids()[i].0)
}

/// The position of the first child of `node` whose key is the same key as `e`
/// (the number of children when there is none).
pub open spec fn child_pos(node: TrieNode, e: KeyEvent) -> int {
    first_from(0, node.kids().len() as int, child_key_is(node, e))
}

/// The node that the keys `path` lead to from `node`, following at each step
/// the first child with the same key.
pub open spec fn lookup(node: TrieNode, path: Seq<KeyEvent>) -> Option<TrieNode>
    decreases path.len(),
{
    if path.len() == 0 {
        Some(node)
    } else {
        let i = child_pos(node, path[0]);
        if i < node.kids().len() {
            lookup(node.kids()[i].1, path.drop_first())
        } else {
            None
        }
    }
}

/// The motion that `path` leads to from `node`, if any.
pub open spec fn motion_at(node: TrieNode, path: Seq<KeyEvent>) -> Option<Motion> {
    match lookup(node, path) {
        Some(n) => n.motion(),
        None => None,
    }
}

/// Whether the keys `path` lead from `node` to a node of the trie.
pub open spec fn reaches(node: TrieNode, path: Seq<KeyEvent>) -> bool {
    lookup(node, path) is Some
}

/// Whether `q` and `p` have the same length and are the same keys one by one.
pub open spec fn same_path(q: Seq<KeyEvent>, p: Seq<KeyEvent>) -> bool
    decreases q.len(),
{
    if q.len() == 0 {
        p.len() == 0
    } else {
        p.len() > 0 && same_key(q[0], p[0]) && same_path(q.drop_first(), p.drop_first())
    }
}

/// Whether the keys `q` are, one by one, the same keys as the first keys of `p`.
pub open spec fn path_prefix(q: Seq<KeyEvent>, p: Seq<KeyEvent>) -> bool
    decreases q.len(),
{
    if q.len() == 0 {
        true
    } else {
        p.len() > 0 && same_key(q[0], p[0]) && path_prefix(q.drop_first(), p.drop_first())
    }
}

proof fn lemma_pos_same_key(node: TrieNode, a: KeyEvent, b: KeyEvent)
    requires
        same_key(a, b),
    ensures
        child_pos(node, a) == child_pos(node, b),
{
    assert(child_key_is(node, a) =~= child_key_is(node, b));
}

proof fn lemma_pos_same_keys(n1: TrieNode, n2: TrieNode, e: KeyEvent)
    requires
        n1.kids().len() == n2.kids().len(),
        forall|j: int| 0 <= j < n1.kids().len() ==> #[trigger] n1.kids()[j].0 == n2.kids()[j].0,
    ensures
        child_pos(n1, e) == child_pos(n2, e),
{
    let n = n1.kids().len() as int;
    let p1 = child_key_is(n1, e);
    let p2 = child_key_is(n2, e);
    assert forall|j: int| #![trigger p1(j)] #![trigger p2(j)] 0 <= j < n implies p1(j) == p2(j) by {
        assert(n1.kids()[j].0 == n2.kids()[j].0);
    }
    lemma_first_from(0, n, p1);
    lemma_first_from_is(0, n, p2, first_from(0, n, p1));
}

/// The node that a nonempty path leads to depends on the children alone.
proof fn lemma_lookup_kids(n1: TrieNode, n2: TrieNode, q: Seq<KeyEvent>)
    requires
        n1.kids() == n2.kids(),
        q.len() > 0,
    ensures
        lookup(n1, q) == lookup(n2, q),
{
    lemma_pos_same_keys(n1, n2, q[0]);
}


/// Adding a last child for the first key of `path`, where no child had that
/// key, adds the paths of the new child's subtree and changes nothing else.
proof fn lemma_new_child(
    old_node: TrieNode,
    node: TrieNode,
    old_child: TrieNode,
    child: TrieNode,
    path: Seq<KeyEvent>,
    command: Motion,
    q: Seq<KeyEvent>,
)
    requires
        path.len() > 0,
        node.kids() == old_node.kids().push((path[0], child)),
        node.motion() == old_node.motion(),
        child_pos(old_node, path[0]) == old_node.kids().len(),
        old_child.kids().len() == 0,
        old_child.motion() is None,
        forall|q1: Seq<KeyEvent>|
            #[trigger] motion_at(child, q1) == if same_path(q1, path.drop_first()) {
                Some(command)
            } else {
                motion_at(old_child, q1)
            },
        forall|q1: Seq<KeyEvent>|
            #[trigger] reaches(child, q1) == (reaches(old_child, q1) || path_prefix(
                q1,
                path.drop_first(),
            )),
    ensures
        motion_at(node, q) == (if same_path(q, path) {
            Some(command)
        } else {
            motion_at(old_node, q)
        }),
        reaches(node, q) == (reaches(old_node, q) || path_prefix(q, path)),
{
    let e = path[0];
    let n = old_node.kids().len() as int;
    lemma_first_from(0, n, child_key_is(old_node, e));
    if q.len() > 0 {
        let q1 = q.drop_first();
        let pq_old = child_key_is(old_node, q[0]);
        let pq_new = child_key_is(node, q[0]);
        lemma_first_from(0, n, pq_old);
        let jq = child_pos(old_node, q[0]);
        assert forall|j: int| #![trigger pq_new(j)] #![trigger pq_old(j)] 0 <= j < n implies pq_new(j) == pq_old(j) by {
            assert(node.kids()[j] == old_node.kids()[j]);
        }
        if jq < n {
            assert(pq_old(jq));
            lemma_first_from_is(0, n + 1, pq_new, jq);
            assert(node.kids()[jq] == old_node.kids()[jq]);
            if same_key(q[0], e) {
                lemma_pos_same_key(old_node, q[0], e);
                assert(false);
            }
        } else if same_key(q[0], e) {
            assert(node.kids()[n] == (e, child));
            assert(pq_new(n));
            lemma_first_from_is(0, n + 1, pq_new, n);
            assert(motion_at(child, q1) == (if same_path(q1, path.drop_first()) {
                Some(command)
            } else {
                motion_at(old_child, q1)
            }));
            assert(reaches(child, q1) == (reaches(old_child, q1) || path_prefix(
                q1,
                path.drop_first(),
            )));
            if q1.len() > 0 {
                assert(child_pos(old_child, q1[0]) == 0);
            }
        } else {
            assert(node.kids()[n] == (e, child));
            assert(!pq_new(n));
            lemma_first_from_is(0, n + 1, pq_new, n + 1);
        }
    }
}

impl TrieNode {
    fn position(&self, e: &KeyEvent) -> (r: Option<usize>)
        ensures
            match r {
                Some(i) => i == child_pos(*self, *e) && i < self.children@.len(),
                None => child_pos(*self, *e) == self.children@.len(),
            },
    {
        let ghost p = child_key_is(*self, *e);
        let mut i: usize = 0;
        while i < self.children.len()
            invariant
                p == child_key_is(*self, *e),
                i <= self.children@.len(),
                forall|k: int| 0 <= k < i ==> !#[trigger] p(k),
            decreases self.children@.len() - i,
        {
            if e.same(&self.children[i].0) {
                proof {
                    lemma_first_from_is(0, self.children@.len() as int, p, i as int);
                }
                return Some(i);
            }
            i += 1;
        }
        proof {
            lemma_first_from_is(0, self.children@.len() as int, p, i as int);
        }
        None
    }

    fn insert_from(&mut self, input_events: &[KeyEvent], k: usize, command: Motion)
        requires
            k <= input_events@.len(),
        ensures
            forall|q: Seq<KeyEvent>|
                #[trigger] motion_at(*final(self), q) == if same_path(q, input_events@.skip(k as int)) {
                    Some(command)
                } else {
                    motion_at(*old(self), q)
                },
            forall|q: Seq<KeyEvent>|
                #[trigger] reaches(*final(self), q) == (reaches(*old(self), q) || path_prefix(
                    q,
                    input_events@.skip(k as int),
                )),
            distinct_keys(*old(self)) ==> distinct_keys(*final(self)),
            keeps_children(*old(self), *final(self)),
        decreases input_events@.len() - k,
    {
        let ghost old_self = *self;
        proof {
            lemma_keeps_self(old_self);
        }
        let ghost path = input_events@.skip(k as int);
        if k == input_events.len() {
            self.command = Some(command);
            proof {
                assert(path.len() == 0);
                assert forall|q: Seq<KeyEvent>|
                    #![trigger motion_at(*self, q)]
                    #![trigger reaches(*self, q)]
                    motion_at(*self, q) == (if same_path(q, path) {
                        Some(command)
                    } else {
                        motion_at(old_self, q)
                    }) && reaches(*self, q) == (reaches(old_self, q) || path_prefix(q, path)) by {
                    if q.len() > 0 {
                        lemma_lookup_kids(*self, old_self, q);
                    }
                }
            }
            return;
        }
        let e = input_events[k];
        assert(path[0] == e);
        assert(path.drop_first() == input_events@.skip(k + 1));
        if let Some(i) = self.position(&e) {
            // if exists, move to that node
            let (key, mut child) = self.children.remove(i);
            let ghost old_child = child;
            child.insert_from(input_events, k + 1, command);
            self.children.insert(i, (key, child));
            proof {
                let n = old_self.children@.len() as int;
                assert(self.children@ == old_self.children@.update(i as int, (key, child)));
                lemma_first_from(0, n, child_key_is(old_self, e));
                assert(same_key(e, key));
                assert forall|q: Seq<KeyEvent>|
                    #![trigger motion_at(*self, q)]
                    #![trigger reaches(*self, q)]
                    motion_at(*self, q) == (if same_path(q, path) {
                        Some(command)
                    } else {
                        motion_at(old_self, q)
                    }) && reaches(*self, q) == (reaches(old_self, q) || path_prefix(q, path)) by {
                    if q.len() > 0 {
                        let q1 = q.drop_first();
                        lemma_pos_same_keys(*self, old_self, q[0]);
                        let j = child_pos(old_self, q[0]);
                        lemma_first_from(0, n, child_key_is(old_self, q[0]));
                        if same_key(q[0], e) {
                            lemma_pos_same_key(old_self, q[0], e);
                            assert(motion_at(child, q1) == (if same_path(q1, path.drop_first()) {
                                Some(command)
                            } else {
                                motion_at(old_child, q1)
                            }));
                            assert(reaches(child, q1) == (reaches(old_child, q1) || path_prefix(
                                q1,
                                path.drop_first(),
                            )));
                        } else {
                            if j == i {
                                assert(same_key(q[0], key));
                                assert(false);
                            }
                            if j < n {
                                assert(self.children@[j] == old_self.children@[j]);
                            }
                        }
                    }
                }
                assert forall|j: int| 0 <= j < n implies self.children@[j].0 == old_self.children@[j].0
                    && keeps_children(#[trigger] old_self.children@[j].1, self.children@[j].1) by {
                    if j != i {
                        assert(self.children@[j] == old_self.children@[j]);
                    }
                }
                if distinct_keys(old_self) {
                    assert(distinct_keys(old_child));
                    assert forall|a: int| 0 <= a < n implies distinct_keys(#[trigger] self.children@[a].1) by {
                        if a != i {
                            assert(self.children@[a] == old_self.children@[a]);
                        }
                    }
                    assert forall|a: int, b: int| 0 <= a < b < n implies !same_key(
                        #[trigger] self.children@[a].0,
                        #[trigger] self.children@[b].0,
                    ) by {
                        assert(self.children@[a].0 == old_self.children@[a].0);
                        assert(self.children@[b].0 == old_self.children@[b].0);
                    }
                }
            }
        } else {
            // if doesn't exist, create it and move to it
            let mut child = TrieNode::default();
            let ghost old_child = child;
            child.insert_from(input_events, k + 1, command);
            self.children.push((e, child));
            proof {
                assert forall|q: Seq<KeyEvent>|
                    #![trigger motion_at(*self, q)]
                    #![trigger reaches(*self, q)]
                    motion_at(*self, q) == (if same_path(q, path) {
                        Some(command)
                    } else {
                        motion_at(old_self, q)
                    }) && reaches(*self, q) == (reaches(old_self, q) || path_prefix(q, path)) by {
                    lemma_new_child(old_self, *self, old_child, child, path, command, q);
                }
                let n = old_self.children@.len() as int;
                assert(self.children@ == old_self.children@.push((e, child)));
                assert forall|j: int| 0 <= j < n implies self.children@[j].0 == old_self.children@[j].0
                    && keeps_children(#[trigger] old_self.children@[j].1, self.children@[j].1) by {
                    assert(self.children@[j] == old_self.children@[j]);
                }
                if distinct_keys(old_self) {
                    lemma_first_from(0, n, child_key_is(old_self, e));
                    assert(distinct_keys(old_child));
                    assert forall|a: int| 0 <= a < n + 1 implies distinct_keys(#[trigger] self.children@[a].1) by {
                        if a < n {
                            assert(self.children@[a] == old_self.children@[a]);
                        }
                    }
                    assert forall|a: int, b: int| 0 <= a < b < n + 1 implies !same_key(
                        #[trigger] self.children@[a].0,
                        #[trigger] self.children@[b].0,
                    ) by {
                        assert(self.children@[a] == old_self.children@[a]);
                        if b < n {
                            assert(self.children@[b] == old_self.children@[b]);
                        } else {
                            assert(!child_key_is(old_self, e)(a));
                        }
                    }
                }
            }
        }
    }

    /// The motion of this node.
    pub(crate) fn motion_here(&self) -> (m: Option<Motion>)
        ensures
            m == self.motion(),
    {
        self.command
    }

    /// insert a series of key events that lead to a command
    ///
    /// The keys then lead to `command`, every other path keeps what it had,
    /// no node gets a second child for a key it has a child for, and the
    /// children that were there stay, in their order.
    pub fn insert(&mut self, input_events: &[KeyEvent], command: Motion)
        ensures
            distinct_keys(*old(self)) ==> distinct_keys(*final(self)),
            keeps_children(*old(self), *final(self)),
            forall|q: Seq<KeyEvent>|
                #[trigger] motion_at(*final(self), q) == if same_path(q, input_events@) {
                    Some(command)
                } else {
                    motion_at(*old(self), q)
                },
            forall|q: Seq<KeyEvent>|
                #[trigger] reaches(*final(self), q) == (reaches(*old(self), q) || path_prefix(
                    q,
                    input_events@,
                )),
    {
        assert(input_events@.skip(0) == input_events@);
        self.insert_from(input_events, 0, command);
    }

    /// search for a key within the current node
    /// if a found, return a reference to that node
    /// if not found, return none
    pub fn search<'a>(&self, input_event: &KeyEvent, current_node: &'a TrieNode) -> (r: Option<&'a TrieNode>)
        ensures
            child_pos(*current_node, *input_event) < current_node.kids().len() ==> r == Some(
                &current_node.kids()[child_pos(*current_node, *input_event)].1,
            ),
            child_pos(*current_node, *input_event) >= current_node.kids().len() ==> r is None,
    {
        if let Some(i) = current_node.position(input_event) {
            return Some(&current_node.children[i].1);
        }
        None
    }
}

} // verus!
