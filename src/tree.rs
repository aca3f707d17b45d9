use vstd::prelude::*;
use crate::arena::Node;
use crate::scene::ElementManager;

verus! {

/// Whether `x` lies in the subtree of `a`: it is `a`, or its parent lies in
/// that subtree. Parents are created before their children, so walking up
/// the creation stamps ends.
pub open spec fn in_subtree(nodes: Map<u64, Node>, stamps: Map<u64, nat>, a: u64, x: u64) -> bool
    decreases stamps[x],
    when nodes.contains_key(x) && (nodes[x].parent matches Some(p) ==> stamps[p] < stamps[x])
{
    x == a || match nodes[x].parent {
        Some(p) => nodes.contains_key(p) && in_subtree(nodes, stamps, a, p),
        None => false,
    }
}

/// The live elements of the subtree of `a`, `a` included.
pub open spec fn subtree(s: ElementManager, a: u64) -> Set<u64> {
    s.nodes().dom().filter(|x: u64| in_subtree(s.nodes(), s.stamps(), a, x))
}

/// An element of a subtree was created no earlier than its top.
pub proof fn lemma_subtree_stamp(s: ElementManager, a: u64, x: u64)
    requires
        s.wf(),
        s.is_live(x),
        in_subtree(s.nodes(), s.stamps(), a, x),
    ensures
        s.is_live(a),
        s.stamps()[a] <= s.stamps()[x],
    decreases s.stamps()[x],
{
    assert(s.nodes().contains_key(x));
    if x != a {
        let p = s.nodes()[x].parent->Some_0;
        lemma_subtree_stamp(s, a, p);
    }
}

/// A proper descendant of `y` lies in the subtree of one of `y`'s children.
pub proof fn lemma_descend(s: ElementManager, y: u64, x: u64) -> (i: int)
    requires
        s.wf(),
        s.is_live(x),
        in_subtree(s.nodes(), s.stamps(), y, x),
        x != y,
    ensures
        s.is_live(y),
        0 <= i < s.nodes()[y].children@.len(),
        in_subtree(s.nodes(), s.stamps(), s.nodes()[y].children@[i], x),
    decreases s.stamps()[x],
{
    assert(s.nodes().contains_key(x));
    let q = s.nodes()[x].parent->Some_0;
    assert(s.nodes().contains_key(q));
    if q == y {
        let i = choose|i: int|
            0 <= i < s.nodes()[y].children@.len() && s.nodes()[y].children@[i] == x;
        i
    } else {
        let i = lemma_descend(s, y, q);
        let c = s.nodes()[y].children@[i];
        assert(in_subtree(s.nodes(), s.stamps(), c, x));
        i
    }
}

/// The bookkeeping of one step of the subtree walk: `y` moves from the top of
/// the stack to the visited list and its children `cs`, new to the walk, go
/// on the stack in reverse.
#[verifier::rlimit(40)]
proof fn lemma_walk_step(
    nodes: Map<u64, Node>,
    stamps: Map<u64, nat>,
    a: u64,
    y: u64,
    cs: Seq<u64>,
    ov: Seq<u64>,
    os: Seq<u64>,
    visited: Seq<u64>,
    stack: Seq<u64>,
)
    requires
        nodes.dom().finite(),
        os.len() > 0,
        y == os.last(),
        ov.no_duplicates(),
        os.no_duplicates(),
        forall|x: u64| #[trigger] ov.contains(x) ==> !os.contains(x),
        ov.contains(a) || os.contains(a),
        ov.len() > 0 ==> ov[0] == a,
        ov.len() == 0 ==> os == seq![a],
        forall|x: u64|
            #[trigger] ov.contains(x) ==> nodes.contains_key(x) && in_subtree(nodes, stamps, a, x)
                && (x != a ==> ov.contains(nodes[x].parent->Some_0)),
        forall|x: u64|
            #[trigger] os.contains(x) ==> nodes.contains_key(x) && in_subtree(nodes, stamps, a, x)
                && (x != a ==> ov.contains(nodes[x].parent->Some_0)),
        cs.no_duplicates(),
        forall|c: u64|
            #[trigger] cs.contains(c) ==> nodes.contains_key(c) && nodes[c].parent == Some(y) && c
                != a && !ov.contains(c) && !os.contains(c) && in_subtree(nodes, stamps, a, c),
        forall|x: u64|
            nodes.contains_key(x) && #[trigger] in_subtree(nodes, stamps, a, x) ==> ov.contains(x)
                || x == y || exists|j: int|
                0 <= j < stack.len() && in_subtree(nodes, stamps, #[trigger] stack[j], x),
        visited == ov.push(y),
        stack == os.drop_last() + cs.reverse(),
    ensures
        visited.no_duplicates(),
        stack.no_duplicates(),
        forall|x: u64| #[trigger] visited.contains(x) ==> !stack.contains(x),
        visited.contains(a) || stack.contains(a),
        visited.len() > 0 ==> visited[0] == a,
        forall|x: u64|
            #[trigger] visited.contains(x) ==> nodes.contains_key(x) && in_subtree(
                nodes,
                stamps,
                a,
                x,
            ) && (x != a ==> visited.contains(nodes[x].parent->Some_0)),
        forall|x: u64|
            #[trigger] stack.contains(x) ==> nodes.contains_key(x) && in_subtree(nodes, stamps, a, x)
                && (x != a ==> visited.contains(nodes[x].parent->Some_0)),
        forall|x: u64|
            nodes.contains_key(x) && #[trigger] in_subtree(nodes, stamps, a, x) ==> visited.contains(
                x,
            ) || exists|j: int| 0 <= j < stack.len() && in_subtree(nodes, stamps, #[trigger] stack[j], x),
        visited.len() <= nodes.dom().len(),
{
    let rest = os.drop_last();
    let n = rest.len();
    assert(os.contains(y)) by {
        assert(os[os.len() - 1] == y);
    }
    assert forall|x: u64| rest.contains(x) implies os.contains(x) && x != y by {
        let i = choose|i: int| 0 <= i < rest.len() && rest[i] == x;
        assert(os[i] == x);
        assert(os[os.len() - 1] == y);
    }
    assert forall|x: u64| os.contains(x) && x != y implies rest.contains(x) by {
        let i = choose|i: int| 0 <= i < os.len() && os[i] == x;
        assert(rest[i] == x);
    }
    assert forall|x: u64| #[trigger] visited.contains(x) <==> ov.contains(x) || x == y by {
        if visited.contains(x) && x != y {
            let i = choose|i: int| 0 <= i < visited.len() && visited[i] == x;
            assert(ov[i] == x);
        }
        if ov.contains(x) {
            let i = choose|i: int| 0 <= i < ov.len() && ov[i] == x;
            assert(visited[i] == x);
        }
        assert(visited[ov.len() as int] == y);
    }
    assert forall|x: u64| #[trigger] stack.contains(x) <==> rest.contains(x) || cs.contains(x) by {
        if stack.contains(x) {
            let i = choose|i: int| 0 <= i < stack.len() && stack[i] == x;
            if i < n {
                assert(rest[i] == x);
            } else {
                assert(cs[cs.len() - 1 - (i - n)] == x);
            }
        }
        if rest.contains(x) {
            let i = choose|i: int| 0 <= i < rest.len() && rest[i] == x;
            assert(stack[i] == x);
        }
        if cs.contains(x) {
            let i = choose|i: int| 0 <= i < cs.len() && cs[i] == x;
            assert(stack[n + (cs.len() - 1 - i)] == x);
        }
    }
    assert(visited.no_duplicates()) by {
        assert forall|i: int, j: int| 0 <= i < visited.len() && 0 <= j < visited.len() && i != j
            implies visited[i] != visited[j] by {
            if i == ov.len() {
                assert(ov.contains(visited[j]));
            } else if j == ov.len() {
                assert(ov.contains(visited[i]));
            }
        }
    }
    assert(stack.no_duplicates()) by {
        assert forall|i: int, j: int| 0 <= i < stack.len() && 0 <= j < stack.len() && i != j
            implies stack[i] != stack[j] by {
            if i < n && j < n {
                assert(rest[i] == os[i] && rest[j] == os[j]);
            } else if i >= n && j >= n {
                assert(cs[cs.len() - 1 - (i - n)] == stack[i]);
                assert(cs[cs.len() - 1 - (j - n)] == stack[j]);
            } else if i < n {
                assert(rest.contains(stack[i]));
                assert(cs.contains(stack[j])) by {
                    assert(cs[cs.len() - 1 - (j - n)] == stack[j]);
                }
            } else {
                assert(rest.contains(stack[j]));
                assert(cs.contains(stack[i])) by {
                    assert(cs[cs.len() - 1 - (i - n)] == stack[i]);
                }
            }
        }
    }
    if ov.len() == 0 {
        assert(y == a);
        assert(visited[0] == a);
    } else {
        assert(visited[0] == ov[0]);
    }
    assert(visited.to_set().subset_of(nodes.dom())) by {
        assert forall|x: u64| visited.to_set().contains(x) implies nodes.dom().contains(x) by {
            assert(visited.contains(x));
        }
    }
    visited.unique_seq_to_set();
    vstd::set_lib::lemma_len_subset(visited.to_set(), nodes.dom());
}

impl ElementManager {
    /// The children of a visited element are new to the walk and lie in the
    /// subtree.
    #[verifier::rlimit(40)]
    proof fn lemma_children_fresh(&self, a: u64, y: u64, ov: Seq<u64>, os: Seq<u64>)
        requires
            self.wf(),
            self.is_live(y),
            in_subtree(self.nodes(), self.stamps(), a, y),
            os.contains(y),
            forall|x: u64| #[trigger] ov.contains(x) ==> !os.contains(x),
            forall|x: u64|
                #[trigger] ov.contains(x) ==> (x != a ==> ov.contains(self.nodes()[x].parent->Some_0)),
            forall|x: u64|
                #[trigger] os.contains(x) ==> (x != a ==> ov.contains(self.nodes()[x].parent->Some_0)),
        ensures
            self.nodes()[y].children@.no_duplicates(),
            forall|c: u64|
                #[trigger] self.nodes()[y].children@.contains(c) ==> self.is_live(c)
                    && self.nodes()[c].parent == Some(y) && c != a && !ov.contains(c)
                    && !os.contains(c) && in_subtree(self.nodes(), self.stamps(), a, c),
    {
        let cs = self.nodes()[y].children@;
        assert forall|c: u64| #[trigger] cs.contains(c) implies self.is_live(c)
            && self.nodes()[c].parent == Some(y) && c != a && !ov.contains(c)
            && !os.contains(c) && in_subtree(self.nodes(), self.stamps(), a, c) by {
            let i = choose|i: int| 0 <= i < cs.len() && cs[i] == c;
            assert(self.nodes()[y].children@[i] == c);
            assert(self.nodes().contains_key(c));
            if c == a {
                lemma_subtree_stamp(*self, a, y);
                assert(self.stamps()[y] < self.stamps()[a]);
            }
            if ov.contains(c) || os.contains(c) {
                assert(ov.contains(y));
            }
        }
    }

    /// Every element of the subtree not yet visited still hangs below an
    /// element of the stack.
    #[verifier::rlimit(40)]
    proof fn lemma_cover_step(&self, a: u64, y: u64, ov: Seq<u64>, os: Seq<u64>, stack: Seq<u64>)
        requires
            self.wf(),
            self.is_live(y),
            os.len() > 0,
            y == os.last(),
            forall|x: u64|
                self.is_live(x) && #[trigger] in_subtree(self.nodes(), self.stamps(), a, x)
                    ==> ov.contains(x) || exists|j: int|
                    0 <= j < os.len() && in_subtree(
                        self.nodes(),
                        self.stamps(),
                        #[trigger] os[j],
                        x,
                    ),
            stack == os.drop_last() + self.nodes()[y].children@.reverse(),
        ensures
            forall|x: u64|
                self.is_live(x) && #[trigger] in_subtree(self.nodes(), self.stamps(), a, x)
                    ==> ov.contains(x) || x == y || exists|j: int|
                    0 <= j < stack.len() && in_subtree(
                        self.nodes(),
                        self.stamps(),
                        #[trigger] stack[j],
                        x,
                    ),
    {
        let cs = self.nodes()[y].children@;
        let n = os.len() - 1;
        assert forall|x: u64|
            self.is_live(x) && #[trigger] in_subtree(self.nodes(), self.stamps(), a, x)
                implies ov.contains(x) || x == y || exists|j: int|
                0 <= j < stack.len() && in_subtree(
                    self.nodes(),
                    self.stamps(),
                    #[trigger] stack[j],
                    x,
                ) by {
            if !ov.contains(x) {
                let j = choose|j: int|
                    0 <= j < os.len() && in_subtree(
                        self.nodes(),
                        self.stamps(),
                        #[trigger] os[j],
                        x,
                    );
                if j < n {
                    assert(stack[j] == os[j]);
                } else if x != y {
                    let i = lemma_descend(*self, y, x);
                    assert(stack[n + (cs.len() - 1 - i)] == cs[i]);
                }
            }
        }
    }

    /// The keys of the subtree of the live element `a`, `a` first, each once,
    /// in pre-order.
    #[verifier::rlimit(40)]
    pub(crate) fn collect_subtree(&self, a: u64) -> (r: Vec<u64>)
        requires
            self.wf(),
            self.is_live(a),
        ensures
            r@.len() > 0,
            r@[0] == a,
            r@.no_duplicates(),
            forall|x: u64| r@.contains(x) <==> subtree(*self, a).contains(x),
    {
        let mut visited: Vec<u64> = Vec::new();
        let mut stack: Vec<u64> = Vec::new();
        stack.push(a);
        proof {
            assert(in_subtree(self.nodes(), self.stamps(), a, a));
            assert(stack@[0] == a);
            assert forall|x: u64|
                self.is_live(x) && #[trigger] in_subtree(self.nodes(), self.stamps(), a, x)
                    implies visited@.contains(x) || exists|j: int|
                    0 <= j < stack@.len() && in_subtree(
                        self.nodes(),
                        self.stamps(),
                        #[trigger] stack@[j],
                        x,
                    ) by {
                assert(in_subtree(self.nodes(), self.stamps(), stack@[0], x));
            }
        }
        while stack.len() > 0
            invariant
                self.wf(),
                self.is_live(a),
                visited@.no_duplicates(),
                stack@.no_duplicates(),
                forall|x: u64| #[trigger] visited@.contains(x) ==> !stack@.contains(x),
                visited@.contains(a) || stack@.contains(a),
                visited@.len() > 0 ==> visited@[0] == a,
                visited@.len() == 0 ==> stack@ == seq![a],
                forall|x: u64|
                    #[trigger] visited@.contains(x) ==> self.is_live(x) && in_subtree(
                        self.nodes(),
                        self.stamps(),
                        a,
                        x,
                    ) && (x != a ==> visited@.contains(self.nodes()[x].parent->Some_0)),
                forall|x: u64|
                    #[trigger] stack@.contains(x) ==> self.is_live(x) && in_subtree(
                        self.nodes(),
                        self.stamps(),
                        a,
                        x,
                    ) && (x != a ==> visited@.contains(self.nodes()[x].parent->Some_0)),
                forall|x: u64|
                    self.is_live(x) && #[trigger] in_subtree(self.nodes(), self.stamps(), a, x)
                        ==> visited@.contains(x) || exists|j: int|
                        0 <= j < stack@.len() && in_subtree(
                            self.nodes(),
                            self.stamps(),
                            #[trigger] stack@[j],
                            x,
                        ),
            decreases self.nodes().dom().len() - visited@.len(),
        {
            let ghost old_visited = visited@;
            let ghost old_stack = stack@;
            let y = stack.pop().unwrap();
            proof {
                assert(old_stack.last() == y);
                assert(old_stack.contains(y));
                assert(stack@ =~= old_stack.drop_last());
            }
            visited.push(y);
            let node = self.get_element(y).unwrap();
            let ghost cs = node.children@;
            let mut j: usize = node.children.len();
            while j > 0
                invariant
                    self.wf(),
                    self.is_live(y),
                    *node == self.nodes()[y],
                    cs == node.children@,
                    j <= cs.len(),
                    stack@ == old_stack.drop_last() + cs.subrange(j as int, cs.len() as int).reverse(),
                decreases j,
            {
                j = j - 1;
                stack.push(node.children[j]);
                proof {
                    assert(cs.subrange(j as int, cs.len() as int).reverse() =~= cs.subrange(
                        j as int + 1,
                        cs.len() as int,
                    ).reverse().push(cs[j as int]));
                }
            }
            proof {
                assert(cs.subrange(0, cs.len() as int) =~= cs);
                self.lemma_children_fresh(a, y, old_visited, old_stack);
                self.lemma_cover_step(a, y, old_visited, old_stack, stack@);
                lemma_walk_step(
                    self.nodes(),
                    self.stamps(),
                    a,
                    y,
                    cs,
                    old_visited,
                    old_stack,
                    visited@,
                    stack@,
                );
            }
        }
        proof {
            assert forall|x: u64| visited@.contains(x) <==> subtree(*self, a).contains(x) by {
                if subtree(*self, a).contains(x) {
                    assert(self.is_live(x) && in_subtree(self.nodes(), self.stamps(), a, x));
                }
            }
        }
        visited
    }
}

/// The pre-order walk of `cs` and everything below: each element, then the
/// walk of its children, then the walk of its later siblings. `fuel` bounds
/// the depth.
pub open spec fn walk(nodes: Map<u64, Node>, cs: Seq<u64>, fuel: nat) -> Seq<u64>
    decreases fuel, cs.len(),
{
    if cs.len() == 0 || fuel == 0 {
        Seq::empty()
    } else {
        let c = cs[0];
        let below = if nodes.contains_key(c) {
            walk(nodes, nodes[c].children@, (fuel - 1) as nat)
        } else {
            Seq::empty()
        };
        seq![c] + below + walk(nodes, cs.drop_first(), fuel)
    }
}

impl ElementManager {
    /// Appends the walk of `cs` to `out`.
    fn walk_into(&self, cs: &Vec<u64>, fuel: Ghost<nat>, out: &mut Vec<u64>)
        requires
            crate::arena::contents_wf(self.nodes()),
            self.children_later(),
            self.stamps_wf(),
            forall|i: int|
                0 <= i < cs@.len() ==> self.is_live(#[trigger] cs@[i]) && self.stamps()[cs@[i]]
                    + fuel@ >= self.next_stamp(),
        ensures
            final(out)@ == old(out)@ + walk(self.nodes(), cs@, fuel@),
        decreases fuel@,
    {
        let ghost start = out@;
        let mut i: usize = 0;
        proof {
            assert(cs@.subrange(0, cs@.len() as int) =~= cs@);
        }
        while i < cs.len()
            invariant
                crate::arena::contents_wf(self.nodes()),
                self.children_later(),
                self.stamps_wf(),
                forall|j: int|
                    0 <= j < cs@.len() ==> self.is_live(#[trigger] cs@[j]) && self.stamps()[cs@[j]]
                        + fuel@ >= self.next_stamp(),
                i <= cs@.len(),
                start + walk(self.nodes(), cs@, fuel@) == out@ + walk(
                    self.nodes(),
                    cs@.subrange(i as int, cs@.len() as int),
                    fuel@,
                ),
            decreases cs@.len() - i,
        {
            let c = cs[i];
            proof {
                assert(self.is_live(cs@[i as int]));
                assert(self.stamps()[c] < self.next_stamp());
                let rest = cs@.subrange(i as int, cs@.len() as int);
                assert(rest[0] == c);
                assert(rest.drop_first() =~= cs@.subrange(i as int + 1, cs@.len() as int));
            }
            out.push(c);
            let node = self.get_element(c).unwrap();
            proof {
                assert forall|j: int| 0 <= j < node.children@.len() implies self.is_live(
                    #[trigger] node.children@[j],
                ) && self.stamps()[node.children@[j]] + (fuel@ - 1) as nat >= self.next_stamp() by {
                    assert(self.nodes()[c].children@[j] == node.children@[j]);
                }
            }
            self.walk_into(&node.children, Ghost((fuel@ - 1) as nat), out);
            proof {
                let rest = cs@.subrange(i as int, cs@.len() as int);
                let below = walk(self.nodes(), self.nodes()[c].children@, (fuel@ - 1) as nat);
                assert(walk(self.nodes(), rest, fuel@) == seq![c] + below + walk(
                    self.nodes(),
                    rest.drop_first(),
                    fuel@,
                ));
                assert(out@ =~= out@.subrange(0, out@.len() - below.len() - 1) + seq![c] + below);
            }
            i = i + 1;
        }
        proof {
            assert(cs@.subrange(cs@.len() as int, cs@.len() as int) =~= Seq::<u64>::empty());
            assert(out@ =~= start + walk(self.nodes(), cs@, fuel@));
        }
    }

    /// Every element below `key` in pre-order: each element before its own
    /// children, siblings in paint order. Empty for a stale key.
    pub fn get_children_of(&self, key: u64) -> (r: Vec<u64>)
        requires
            self.wf(),
        ensures
            self.is_live(key) ==> r@ == walk(self.nodes(), self.nodes()[key].children@, self.next_stamp()),
            self.is_live(key) ==> r@.no_duplicates() && r@.len() + 1 == subtree(*self, key).len(),
            forall|x: u64| r@.contains(x) <==> (subtree(*self, key).contains(x) && x != key),
    {
        let mut out: Vec<u64> = Vec::new();
        match self.get_element(key) {
            Some(node) => {
                proof {
                    self.lemma_children_later();
                    assert forall|j: int| 0 <= j < node.children@.len() implies self.is_live(
                        #[trigger] node.children@[j],
                    ) && self.stamps()[node.children@[j]] + self.next_stamp() >= self.next_stamp() by {
                        assert(self.nodes()[key].children@[j] == node.children@[j]);
                    }
                }
                self.walk_into(&node.children, Ghost(self.next_stamp()), &mut out);
                proof {
                    lemma_children_of_is_subtree(*self, key);
                }
            },
            None => {
                proof {
                    assert forall|x: u64| !subtree(*self, key).contains(x) by {
                        if subtree(*self, key).contains(x) {
                            lemma_subtree_stamp(*self, key, x);
                        }
                    }
                }
            },
        }
        out
    }
}

/// Two subtrees that share an element are nested.
proof fn lemma_subtrees_nested(s: ElementManager, a: u64, b: u64, x: u64)
    requires
        s.wf(),
        s.is_live(x),
        in_subtree(s.nodes(), s.stamps(), a, x),
        in_subtree(s.nodes(), s.stamps(), b, x),
    ensures
        in_subtree(s.nodes(), s.stamps(), a, b) || in_subtree(s.nodes(), s.stamps(), b, a),
    decreases s.stamps()[x],
{
    assert(s.nodes().contains_key(x));
    if x != a && x != b {
        let p = s.nodes()[x].parent->Some_0;
        lemma_subtrees_nested(s, a, b, p);
    }
}

/// An element below a child of `c` lies in the subtree of `c`.
proof fn lemma_subtree_up(s: ElementManager, child: u64, c: u64, x: u64)
    requires
        s.wf(),
        s.is_live(x),
        s.is_live(child),
        s.nodes()[child].parent == Some(c),
        in_subtree(s.nodes(), s.stamps(), child, x),
    ensures
        in_subtree(s.nodes(), s.stamps(), c, x),
        x != c,
    decreases s.stamps()[x],
{
    assert(s.nodes().contains_key(x));
    lemma_subtree_stamp(s, child, x);
    assert(s.nodes().contains_key(child));
    if x == child {
        assert(in_subtree(s.nodes(), s.stamps(), c, c));
    } else {
        let p = s.nodes()[x].parent->Some_0;
        lemma_subtree_up(s, child, c, p);
    }
}

/// The scene's invariant, kept folded inside the walk lemmas below.
#[verifier::opaque]
spec fn sealed(s: ElementManager) -> bool {
    s.wf()
}

proof fn sealed_children(s: ElementManager, c: u64)
    requires
        sealed(s),
        s.is_live(c),
    ensures
        s.stamps()[c] < s.next_stamp(),
        in_subtree(s.nodes(), s.stamps(), c, c),
        forall|i: int|
            0 <= i < s.nodes()[c].children@.len() ==> s.is_live(#[trigger] s.nodes()[c].children@[i])
                && s.nodes()[s.nodes()[c].children@[i]].parent == Some(c) && s.stamps()[c]
                < s.stamps()[s.nodes()[c].children@[i]],
{
    reveal(sealed);
    s.lemma_children_later();
    assert(s.nodes().contains_key(c));
}

/// The subtrees of two different children of one element are disjoint.
proof fn sealed_siblings(s: ElementManager, k: u64, i: int, j: int, x: u64)
    requires
        sealed(s),
        s.is_live(k),
        0 <= i < s.nodes()[k].children@.len(),
        0 <= j < s.nodes()[k].children@.len(),
        i != j,
        s.is_live(x),
    ensures
        !(in_subtree(s.nodes(), s.stamps(), s.nodes()[k].children@[i], x) && in_subtree(
            s.nodes(),
            s.stamps(),
            s.nodes()[k].children@[j],
            x,
        )),
{
    reveal(sealed);
    let ci = s.nodes()[k].children@[i];
    let cj = s.nodes()[k].children@[j];
    if in_subtree(s.nodes(), s.stamps(), ci, x) && in_subtree(s.nodes(), s.stamps(), cj, x) {
        assert(s.nodes().contains_key(ci) && s.nodes().contains_key(cj));
        assert(s.nodes()[ci].parent == Some(k) && s.nodes()[cj].parent == Some(k));
        assert(ci != cj);
        lemma_subtrees_nested(s, ci, cj, x);
        if in_subtree(s.nodes(), s.stamps(), ci, cj) {
            lemma_subtree_stamp(s, ci, k);
        } else {
            lemma_subtree_stamp(s, cj, k);
        }
    }
}

proof fn sealed_up(s: ElementManager, child: u64, c: u64, x: u64)
    requires
        sealed(s),
        s.is_live(x),
        s.is_live(child),
        s.nodes()[child].parent == Some(c),
        in_subtree(s.nodes(), s.stamps(), child, x),
    ensures
        in_subtree(s.nodes(), s.stamps(), c, x),
        x != c,
{
    reveal(sealed);
    lemma_subtree_up(s, child, c, x);
}

proof fn sealed_descend(s: ElementManager, y: u64, x: u64) -> (i: int)
    requires
        sealed(s),
        s.is_live(x),
        in_subtree(s.nodes(), s.stamps(), y, x),
        x != y,
    ensures
        0 <= i < s.nodes()[y].children@.len(),
        in_subtree(s.nodes(), s.stamps(), s.nodes()[y].children@[i], x),
{
    reveal(sealed);
    lemma_descend(s, y, x)
}

/// Whether some element of `cs` has `x` in its subtree.
pub open spec fn under_any(s: ElementManager, cs: Seq<u64>, x: u64) -> bool {
    exists|i: int| 0 <= i < cs.len() && #[trigger] in_subtree(s.nodes(), s.stamps(), cs[i], x)
}

/// Whether no element lies in the subtrees of two elements of `cs`.
pub open spec fn disjoint_subtrees(s: ElementManager, cs: Seq<u64>) -> bool {
    forall|i: int, j: int, x: u64|
        0 <= i < cs.len() && 0 <= j < cs.len() && i != j && s.is_live(x) ==> !(
        #[trigger] in_subtree(s.nodes(), s.stamps(), cs[i], x) && #[trigger] in_subtree(
            s.nodes(),
            s.stamps(),
            cs[j],
            x,
        ))
}

/// The walk below a live element `c` lists each proper descendant of `c`
/// exactly once.
proof fn lemma_below_members(s: ElementManager, c: u64, fuel: nat)
    requires
        sealed(s),
        s.is_live(c),
        s.stamps()[c] + fuel >= s.next_stamp(),
        fuel > 0,
    ensures
        walk(s.nodes(), s.nodes()[c].children@, (fuel - 1) as nat).no_duplicates(),
        forall|x: u64|
            #[trigger] walk(s.nodes(), s.nodes()[c].children@, (fuel - 1) as nat).contains(x)
                <==> s.is_live(x) && x != c && in_subtree(s.nodes(), s.stamps(), c, x),
    decreases fuel, 0nat,
{
    let kids = s.nodes()[c].children@;
    sealed_children(s, c);
    assert forall|i: int, j: int, x: u64|
        0 <= i < kids.len() && 0 <= j < kids.len() && i != j && s.is_live(x) implies !(
        #[trigger] in_subtree(s.nodes(), s.stamps(), kids[i], x) && #[trigger] in_subtree(
            s.nodes(),
            s.stamps(),
            kids[j],
            x,
        )) by {
        sealed_siblings(s, c, i, j, x);
    }
    lemma_walk_members(s, kids, (fuel - 1) as nat);
    let below = walk(s.nodes(), kids, (fuel - 1) as nat);
    assert forall|x: u64| #[trigger] below.contains(x) <==> s.is_live(x) && x != c && in_subtree(
        s.nodes(),
        s.stamps(),
        c,
        x,
    ) by {
        if below.contains(x) {
            assert(under_any(s, kids, x));
            let i = choose|i: int| 0 <= i < kids.len() && #[trigger] in_subtree(s.nodes(), s.stamps(), kids[i], x);
            sealed_up(s, kids[i], c, x);
        }
        if s.is_live(x) && x != c && in_subtree(s.nodes(), s.stamps(), c, x) {
            let i = sealed_descend(s, c, x);
            assert(in_subtree(s.nodes(), s.stamps(), kids[i], x));
            assert(under_any(s, kids, x));
        }
    }
}

/// The walk of elements with disjoint subtrees lists each element of those
/// subtrees exactly once.
proof fn lemma_walk_members(s: ElementManager, cs: Seq<u64>, fuel: nat)
    requires
        sealed(s),
        forall|i: int|
            0 <= i < cs.len() ==> s.is_live(#[trigger] cs[i]) && s.stamps()[cs[i]] + fuel
                >= s.next_stamp(),
        disjoint_subtrees(s, cs),
    ensures
        walk(s.nodes(), cs, fuel).no_duplicates(),
        forall|x: u64|
            #[trigger] walk(s.nodes(), cs, fuel).contains(x) <==> s.is_live(x) && under_any(s, cs, x),
    decreases fuel, cs.len(),
{
    if cs.len() == 0 {
        assert(walk(s.nodes(), cs, fuel) =~= Seq::<u64>::empty());
    } else {
        let c = cs[0];
        assert(s.is_live(c));
        sealed_children(s, c);
        let rest = cs.drop_first();
        lemma_below_members(s, c, fuel);
        assert forall|i: int| 0 <= i < rest.len() implies s.is_live(#[trigger] rest[i]) && s.stamps()[rest[i]]
            + fuel >= s.next_stamp() by {
            assert(rest[i] == cs[i + 1]);
        }
        assert(disjoint_subtrees(s, rest)) by {
            assert forall|i: int, j: int, x: u64|
                0 <= i < rest.len() && 0 <= j < rest.len() && i != j && s.is_live(x) implies !(
                #[trigger] in_subtree(s.nodes(), s.stamps(), rest[i], x) && #[trigger] in_subtree(
                    s.nodes(),
                    s.stamps(),
                    rest[j],
                    x,
                )) by {
                assert(rest[i] == cs[i + 1] && rest[j] == cs[j + 1]);
            }
        }
        lemma_walk_members(s, rest, fuel);
        lemma_walk_parts(s, cs, fuel);
    }
}

/// Puts together the walk of a non-empty list from its first element, the
/// walk below it, and the walk of the rest.
proof fn lemma_walk_parts(s: ElementManager, cs: Seq<u64>, fuel: nat)
    requires
        cs.len() > 0,
        fuel > 0,
        s.is_live(cs[0]),
        in_subtree(s.nodes(), s.stamps(), cs[0], cs[0]),
        disjoint_subtrees(s, cs),
        walk(s.nodes(), s.nodes()[cs[0]].children@, (fuel - 1) as nat).no_duplicates(),
        forall|x: u64|
            #[trigger] walk(s.nodes(), s.nodes()[cs[0]].children@, (fuel - 1) as nat).contains(x)
                <==> s.is_live(x) && x != cs[0] && in_subtree(s.nodes(), s.stamps(), cs[0], x),
        walk(s.nodes(), cs.drop_first(), fuel).no_duplicates(),
        forall|x: u64|
            #[trigger] walk(s.nodes(), cs.drop_first(), fuel).contains(x) <==> s.is_live(x)
                && under_any(s, cs.drop_first(), x),
    ensures
        walk(s.nodes(), cs, fuel).no_duplicates(),
        forall|x: u64|
            #[trigger] walk(s.nodes(), cs, fuel).contains(x) <==> s.is_live(x) && under_any(s, cs, x),
{
    let c = cs[0];
    let rest = cs.drop_first();
    let below = walk(s.nodes(), s.nodes()[c].children@, (fuel - 1) as nat);
    let after = walk(s.nodes(), rest, fuel);
    let w = walk(s.nodes(), cs, fuel);
    assert(w == seq![c] + below + after);
    assert forall|x: u64| #[trigger] after.contains(x) implies !in_subtree(s.nodes(), s.stamps(), c, x) by {
        assert(under_any(s, rest, x));
        let i = choose|i: int| 0 <= i < rest.len() && #[trigger] in_subtree(s.nodes(), s.stamps(), rest[i], x);
        assert(rest[i] == cs[i + 1]);
        assert(in_subtree(s.nodes(), s.stamps(), cs[i + 1], x));
        assert(in_subtree(s.nodes(), s.stamps(), cs[0], x) ==> false);
    }
    assert forall|x: u64| #[trigger] w.contains(x) <==> s.is_live(x) && under_any(s, cs, x) by {
        if w.contains(x) {
            let k = choose|k: int| 0 <= k < w.len() && w[k] == x;
            if k == 0 {
                assert(in_subtree(s.nodes(), s.stamps(), cs[0], x));
            } else if k < 1 + below.len() {
                assert(below[k - 1] == x);
                assert(below.contains(x));
                assert(in_subtree(s.nodes(), s.stamps(), cs[0], x));
            } else {
                assert(after[k - 1 - below.len()] == x);
                assert(after.contains(x));
                assert(under_any(s, rest, x));
                let i = choose|i: int| 0 <= i < rest.len() && #[trigger] in_subtree(s.nodes(), s.stamps(), rest[i], x);
                assert(rest[i] == cs[i + 1]);
                assert(in_subtree(s.nodes(), s.stamps(), cs[i + 1], x));
            }
        }
        if s.is_live(x) && under_any(s, cs, x) {
            let i = choose|i: int| 0 <= i < cs.len() && #[trigger] in_subtree(s.nodes(), s.stamps(), cs[i], x);
            if i == 0 {
                if x == c {
                    assert(w[0] == x);
                } else {
                    assert(below.contains(x));
                    let k = choose|k: int| 0 <= k < below.len() && below[k] == x;
                    assert(w[1 + k] == x);
                }
            } else {
                assert(rest[i - 1] == cs[i]);
                assert(in_subtree(s.nodes(), s.stamps(), rest[i - 1], x));
                assert(under_any(s, rest, x));
                assert(after.contains(x));
                let k = choose|k: int| 0 <= k < after.len() && after[k] == x;
                assert(w[1 + below.len() + k] == x);
            }
        }
    }
    assert forall|a: int, b: int| 0 <= a < w.len() && 0 <= b < w.len() && a != b implies w[a] != w[b] by {
        let n1 = 1 + below.len();
        if a == 0 && b < n1 {
            assert(below[b - 1] == w[b]);
            assert(below.contains(w[b]));
        } else if b == 0 && a < n1 {
            assert(below[a - 1] == w[a]);
            assert(below.contains(w[a]));
        } else if a == 0 {
            assert(after[b - n1] == w[b]);
            assert(after.contains(w[b]));
        } else if b == 0 {
            assert(after[a - n1] == w[a]);
            assert(after.contains(w[a]));
        } else if a < n1 && b < n1 {
            assert(below[a - 1] == w[a] && below[b - 1] == w[b]);
        } else if a >= n1 && b >= n1 {
            assert(after[a - n1] == w[a] && after[b - n1] == w[b]);
        } else if a < n1 {
            assert(below[a - 1] == w[a]);
            assert(below.contains(w[a]));
            assert(after[b - n1] == w[b]);
            assert(after.contains(w[b]));
        } else {
            assert(below[b - 1] == w[b]);
            assert(below.contains(w[b]));
            assert(after[a - n1] == w[a]);
            assert(after.contains(w[a]));
        }
    }
}

/// Listing the elements below a live element gives each element of its
/// subtree but itself, each exactly once.
pub proof fn lemma_children_of_is_subtree(s: ElementManager, key: u64)
    requires
        s.wf(),
        s.is_live(key),
    ensures
        walk(s.nodes(), s.nodes()[key].children@, s.next_stamp()).no_duplicates(),
        forall|x: u64|
            #[trigger] walk(s.nodes(), s.nodes()[key].children@, s.next_stamp()).contains(x) <==> (
            subtree(s, key).contains(x) && x != key),
        subtree(s, key).len() == walk(s.nodes(), s.nodes()[key].children@, s.next_stamp()).len() + 1,
{
    assert(sealed(s)) by {
        reveal(sealed);
    }
    sealed_children(s, key);
    lemma_below_members(s, key, s.next_stamp() + 1);
    assert(((s.next_stamp() + 1) - 1) as nat == s.next_stamp());
    let w = walk(s.nodes(), s.nodes()[key].children@, s.next_stamp());
    let sub = subtree(s, key);
    assert(in_subtree(s.nodes(), s.stamps(), key, key));
    assert(sub.contains(key));
    w.unique_seq_to_set();
    assert(w.to_set() =~= sub.remove(key));
    assert(sub.finite()) by {
        vstd::set_lib::lemma_len_subset(sub, s.nodes().dom());
    }
}

} // verus!
