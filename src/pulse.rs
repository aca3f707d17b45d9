use vstd::prelude::*;

verus! {

/// Number of times `k` occurs in `s`.
pub open spec fn occurrences(s: Seq<u64>, k: u64) -> nat
    decreases s.len(),
{
    if s.len() == 0 {
        0
    } else {
        occurrences(s.drop_last(), k) + if s.last() == k {
            1nat
        } else {
            0nat
        }
    }
}

/// The distinct keys of `s`, each at its first occurrence.
pub open spec fn first_occurrences(s: Seq<u64>) -> Seq<u64>
    decreases s.len(),
{
    if s.len() == 0 {
        Seq::empty()
    } else {
        let front = first_occurrences(s.drop_last());
        if front.contains(s.last()) {
            front
        } else {
            front.push(s.last())
        }
    }
}

/// The dependency list after registering `key`.
pub open spec fn with_dependency(deps: Seq<u64>, key: u64) -> Seq<u64> {
    if deps.contains(key) {
        deps
    } else {
        deps.push(key)
    }
}

pub proof fn lemma_first_occurrences(s: Seq<u64>)
    ensures
        first_occurrences(s).no_duplicates(),
        forall|k: u64| first_occurrences(s).contains(k) <==> s.contains(k),
    decreases s.len(),
{
    if s.len() > 0 {
        let f = s.drop_last();
        let front = first_occurrences(f);
        let last = s.last();
        lemma_first_occurrences(f);
        assert forall|k: u64| s.contains(k) <==> (f.contains(k) || k == last) by {
            if s.contains(k) && k != last {
                let i = choose|i: int| 0 <= i < s.len() && s[i] == k;
                assert(f[i] == k);
            }
            if f.contains(k) {
                let i = choose|i: int| 0 <= i < f.len() && f[i] == k;
                assert(s[i] == k);
            }
            if k == last {
                assert(s[s.len() - 1] == k);
            }
        }
        if !front.contains(last) {
            let r = front.push(last);
            assert forall|k: u64| r.contains(k) <==> (front.contains(k) || k == last) by {
                if r.contains(k) && k != last {
                    let i = choose|i: int| 0 <= i < r.len() && r[i] == k;
                    assert(front[i] == k);
                }
                if front.contains(k) {
                    let i = choose|i: int| 0 <= i < front.len() && front[i] == k;
                    assert(r[i] == k);
                }
                if k == last {
                    assert(r[front.len() as int] == k);
                }
            }
            assert forall|i: int, j: int|
                0 <= i < r.len() && 0 <= j < r.len() && i != j implies r[i] != r[j] by {
                if i == front.len() {
                    assert(front[j] != last);
                } else if j == front.len() {
                    assert(front[i] != last);
                }
            }
        }
    }
}

pub proof fn lemma_occurrences_distinct(s: Seq<u64>, k: u64)
    requires
        s.no_duplicates(),
    ensures
        occurrences(s, k) == if s.contains(k) {
            1nat
        } else {
            0nat
        },
    decreases s.len(),
{
    if s.len() > 0 {
        let f = s.drop_last();
        assert(f.no_duplicates());
        lemma_occurrences_distinct(f, k);
        if s.last() == k {
            assert(!f.contains(k)) by {
                if f.contains(k) {
                    let i = choose|i: int| 0 <= i < f.len() && f[i] == k;
                    assert(s[i] == s[s.len() - 1]);
                }
            }
        }
        if f.contains(k) {
            let i = choose|i: int| 0 <= i < f.len() && f[i] == k;
            assert(s[i] == k);
        }
        if s.contains(k) && s.last() != k {
            let i = choose|i: int| 0 <= i < s.len() && s[i] == k;
            assert(f[i] == k);
        }
    }
}

/// Keys of elements waiting for an update, in the order they were requested.
pub struct UpdateQueue {
    pending: Vec<u64>,
}

impl UpdateQueue {
    pub closed spec fn pending(&self) -> Seq<u64> {
        self.pending@
    }

    pub fn new() -> (r: UpdateQueue)
        ensures
            r.pending() == Seq::<u64>::empty(),
    {
        UpdateQueue { pending: Vec::new() }
    }

    /// Requests an update of the element `key`.
    pub fn send(&mut self, key: u64)
        ensures
            final(self).pending() == old(self).pending().push(key),
    {
        self.pending.push(key);
    }

    pub fn is_empty(&self) -> (r: bool)
        ensures
            r == (self.pending().len() == 0),
    {
        self.pending.len() == 0
    }

    pub fn len(&self) -> (r: usize)
        ensures
            r == self.pending().len(),
    {
        self.pending.len()
    }

    /// Empties the queue and returns each requested key once, in the order of
    /// its first request. Requests made several times between two drains are
    /// answered by a single update.
    pub fn drain(&mut self) -> (r: Vec<u64>)
        ensures
            r@ == first_occurrences(old(self).pending()),
            r@.no_duplicates(),
            forall|k: u64| r@.contains(k) <==> old(self).pending().contains(k),
            final(self).pending() == Seq::<u64>::empty(),
    {
        let mut out: Vec<u64> = Vec::new();
        let mut i: usize = 0;
        while i < self.pending.len()
            invariant
                i <= self.pending@.len(),
                out@ == first_occurrences(self.pending@.subrange(0, i as int)),
            decreases self.pending@.len() - i,
        {
            let k = self.pending[i];
            let seen = contains(&out, k);
            proof {
                let s = self.pending@.subrange(0, i as int + 1);
                assert(s.drop_last() =~= self.pending@.subrange(0, i as int));
                assert(s.last() == k);
            }
            if !seen {
                out.push(k);
            }
            i = i + 1;
        }
        proof {
            assert(self.pending@.subrange(0, self.pending@.len() as int) =~= self.pending@);
            lemma_first_occurrences(self.pending@);
        }
        self.pending = Vec::new();
        out
    }
}

/// Whether `k` is in `v`.
pub fn contains(v: &Vec<u64>, k: u64) -> (r: bool)
    ensures
        r == v@.contains(k),
{
    let mut i: usize = 0;
    while i < v.len()
        invariant
            i <= v@.len(),
            forall|j: int| 0 <= j < i ==> v@[j] != k,
        decreases v@.len() - i,
    {
        if v[i] == k {
            assert(v@[i as int] == k);
            return true;
        }
        i = i + 1;
    }
    false
}

/// A value that elements depend on. Changing it requests an update of every
/// dependent element.
pub struct Pulse<T> {
    value: T,
    deps: Vec<u64>,
}

impl<T> Pulse<T> {
    pub closed spec fn value(&self) -> T {
        self.value
    }

    /// The dependent elements, each listed once.
    pub closed spec fn deps(&self) -> Seq<u64> {
        self.deps@
    }

    pub closed spec fn wf(&self) -> bool {
        self.deps@.no_duplicates()
    }

    /// A pulse holding `initial`, with no dependents.
    pub fn new(initial: T) -> (r: Pulse<T>)
        ensures
            r.wf(),
            r.value() == initial,
            r.deps() == Seq::<u64>::empty(),
    {
        Pulse { value: initial, deps: Vec::new() }
    }

    /// The current value.
    pub fn read(&self) -> (r: &T)
        ensures
            *r == self.value(),
    {
        &self.value
    }

    /// The dependent elements.
    pub fn dependencies(&self) -> (r: &Vec<u64>)
        ensures
            r@ == self.deps(),
    {
        &self.deps
    }

    /// Registers the element `key` as dependent; registering it again changes
    /// nothing.
    pub fn add_dependency(&mut self, key: u64)
        requires
            old(self).wf(),
        ensures
            final(self).wf(),
            final(self).value() == old(self).value(),
            final(self).deps() == with_dependency(old(self).deps(), key),
    {
        if !contains(&self.deps, key) {
            proof {
                assert forall|i: int, j: int|
                    0 <= i < self.deps@.len() + 1 && 0 <= j < self.deps@.len() + 1 && i != j
                        implies self.deps@.push(key)[i] != self.deps@.push(key)[j] by {
                    if i == self.deps@.len() {
                        assert(self.deps@[j] != key);
                    } else if j == self.deps@.len() {
                        assert(self.deps@[i] != key);
                    }
                }
            }
            self.deps.push(key);
        }
    }

    /// Requests an update of every dependent element.
    pub fn tell_receiver(&self, queue: &mut UpdateQueue)
        ensures
            final(queue).pending() == old(queue).pending() + self.deps(),
    {
        let mut i: usize = 0;
        while i < self.deps.len()
            invariant
                i <= self.deps@.len(),
                queue.pending() == old(queue).pending() + self.deps@.subrange(0, i as int),
            decreases self.deps@.len() - i,
        {
            queue.send(self.deps[i]);
            proof {
                assert(self.deps@.subrange(0, i as int + 1) =~= self.deps@.subrange(0, i as int).push(
                    self.deps@[i as int],
                ));
            }
            i = i + 1;
        }
        assert(self.deps@.subrange(0, self.deps@.len() as int) =~= self.deps@);
    }

    /// Replaces the value and requests an update of every dependent element.
    pub fn set(&mut self, value: T, queue: &mut UpdateQueue)
        requires
            old(self).wf(),
        ensures
            final(self).wf(),
            final(self).value() == value,
            final(self).deps() == old(self).deps(),
            final(queue).pending() == old(queue).pending() + old(self).deps(),
    {
        self.value = value;
        self.tell_receiver(queue);
    }

    /// Replaces the value by `f` of it and requests an update of every
    /// dependent element.
    pub fn mutate<F: Fn(&T) -> T>(&mut self, f: F, queue: &mut UpdateQueue)
        requires
            old(self).wf(),
            f.requires((&old(self).value(),)),
        ensures
            final(self).wf(),
            f.ensures((&old(self).value(),), final(self).value()),
            final(self).deps() == old(self).deps(),
            final(queue).pending() == old(queue).pending() + old(self).deps(),
    {
        let value = f(&self.value);
        self.value = value;
        self.tell_receiver(queue);
    }
}

/// Registering the same dependent twice leaves the dependency list as one
/// registration does, so each change of the value requests exactly one update
/// of that element.
pub proof fn lemma_add_dependency_idempotent(deps: Seq<u64>, key: u64)
    requires
        deps.no_duplicates(),
    ensures
        with_dependency(with_dependency(deps, key), key) == with_dependency(deps, key),
        occurrences(with_dependency(with_dependency(deps, key), key), key) == 1,
{
    let once = with_dependency(deps, key);
    assert(once.contains(key)) by {
        if !deps.contains(key) {
            assert(once[deps.len() as int] == key);
        }
    }
    assert(once.no_duplicates()) by {
        if !deps.contains(key) {
            assert forall|i: int, j: int|
                0 <= i < once.len() && 0 <= j < once.len() && i != j implies once[i] != once[j] by {
                if i == deps.len() {
                    assert(deps[j] != key);
                } else if j == deps.len() {
                    assert(deps[i] != key);
                }
            }
        }
    }
    lemma_occurrences_distinct(once, key);
}

} // verus!
