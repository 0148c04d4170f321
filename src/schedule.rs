use vstd::prelude::*;

verus! {

/// Dependency-ordered dispatch over the nodes of one kind. A node becomes ready once every
/// node it depends on has been committed; each node is started once and committed once.
/// A node's dependency on itself (a struct that points to itself) does not hold it back.
#[derive(Debug)]
pub struct Scheduler {
    pub deps: Vec<Vec<usize>>,
    pub started: Vec<bool>,
    pub committed: Vec<bool>,
}

/// Whether node `i` waits for nothing but committed nodes (and itself).
pub open spec fn deps_done(deps: Seq<Vec<usize>>, committed: Seq<bool>, i: int) -> bool {
    forall|k: int| 0 <= k < deps[i]@.len() ==> {
        let d = #[trigger] deps[i]@[k] as int;
        d == i || (0 <= d < committed.len() && committed[d])
    }
}

/// Whether node `i` can be started.
pub open spec fn is_ready(deps: Seq<Vec<usize>>, started: Seq<bool>, committed: Seq<bool>, i: int) -> bool {
    !started[i] && deps_done(deps, committed, i)
}

#[derive(Debug, Clone, Copy, PartialEq, Eq, Structural)]
pub enum ScheduleError {
    /// The node is unknown, was never started, or was committed already.
    NotInFlight,
}

impl Scheduler {
    pub open spec fn len(&self) -> nat {
        self.deps@.len()
    }

    pub open spec fn wf(&self) -> bool {
        &&& self.started@.len() == self.deps@.len()
        &&& self.committed@.len() == self.deps@.len()
        &&& forall|i: int| 0 <= i < self.len() && #[trigger] self.committed@[i] ==> self.started@[i]
        &&& forall|i: int| 0 <= i < self.len() && #[trigger] self.started@[i]
            ==> deps_done(self.deps@, self.committed@, i)
    }

    /// Every node committed.
    pub open spec fn all_committed(&self) -> bool {
        forall|i: int| 0 <= i < self.len() ==> #[trigger] self.committed@[i]
    }

    /// A scheduler over nodes whose dependencies are `deps` (indices of the same kind).
    pub fn new(deps: Vec<Vec<usize>>) -> (r: Scheduler)
        ensures
            r.wf(),
            r.deps@ == deps@,
            forall|i: int| 0 <= i < r.len() ==> !#[trigger] r.started@[i] && !r.committed@[i],
            deps@.len() == 0 ==> r.all_committed(),
    {
        let n = deps.len();
        let mut started: Vec<bool> = Vec::new();
        let mut committed: Vec<bool> = Vec::new();
        let mut i: usize = 0;
        while i < n
            invariant
                i <= n,
                started@.len() == i,
                committed@.len() == i,
                forall|j: int| 0 <= j < i ==> !#[trigger] started@[j] && !committed@[j],
            decreases n - i,
        {
            started.push(false);
            committed.push(false);
            i = i + 1;
        }
        Scheduler { deps, started, committed }
    }

    /// Starts every node that is ready and returns them in increasing order.
    pub fn ready(&mut self) -> (r: Vec<usize>)
        requires
            old(self).wf(),
        ensures
            final(self).wf(),
            final(self).deps == old(self).deps,
            final(self).committed == old(self).committed,
            final(self).started@.len() == old(self).started@.len(),
            forall|i: int| 0 <= i < old(self).len() ==> (#[trigger] final(self).started@[i]
                <==> (old(self).started@[i] || is_ready(old(self).deps@, old(self).started@, old(self).committed@, i))),
            forall|i: int| 0 <= i < old(self).len() ==> (r@.contains(i as usize)
                <==> is_ready(old(self).deps@, old(self).started@, old(self).committed@, i)),
            forall|a: int, b: int| 0 <= a < b < r@.len() ==> r@[a] < r@[b],
            forall|k: int| 0 <= k < r@.len() ==> #[trigger] r@[k] < old(self).len(),
    {
        let ghost s0 = self.started@;
        let n = self.started.len();
        let mut r: Vec<usize> = Vec::new();
        let mut i: usize = 0;
        while i < n
            invariant
                n == s0.len(),
                self.deps == old(self).deps,
                self.committed == old(self).committed,
                self.started@.len() == n,
                s0 == old(self).started@,
                old(self).wf(),
                i <= n,
                forall|j: int| 0 <= j < n ==> (#[trigger] self.started@[j] <==> (s0[j]
                    || (j < i && is_ready(self.deps@, s0, self.committed@, j)))),
                forall|j: int| 0 <= j < r@.len() ==> #[trigger] r@[j] < i,
                forall|j: int| 0 <= j < n ==> (r@.contains(j as usize)
                    <==> (j < i && is_ready(self.deps@, s0, self.committed@, j))),
                forall|a: int, b: int| 0 <= a < b < r@.len() ==> r@[a] < r@[b],
            decreases n - i,
        {
            let go = !self.started[i] && self.deps_ready_at(i);
            if go {
                self.started.set(i, true);
                let ghost r0 = r@;
                r.push(i);
                proof {
                    assert forall|j: int| 0 <= j < n implies (r@.contains(j as usize)
                        <==> (j < i + 1 && is_ready(self.deps@, s0, self.committed@, j))) by {
                        if r@.contains(j as usize) && j != i {
                            let q = choose|q: int| 0 <= q < r@.len() && r@[q] == j as usize;
                            assert(r0[q] == j as usize);
                        }
                        if j == i {
                            assert(r@[r@.len() - 1] == i);
                        } else if j < i && is_ready(self.deps@, s0, self.committed@, j) {
                            let q = choose|q: int| 0 <= q < r0.len() && r0[q] == j as usize;
                            assert(r@[q] == j as usize);
                        }
                    }
                }
            }
            i = i + 1;
        }
        r
    }

    fn deps_ready_at(&self, i: usize) -> (r: bool)
        requires
            self.started@.len() == self.deps@.len(),
            self.committed@.len() == self.deps@.len(),
            i < self.deps@.len(),
        ensures
            r == deps_done(self.deps@, self.committed@, i as int),
    {
        let ds = &self.deps[i];
        let mut k: usize = 0;
        while k < ds.len()
            invariant
                i < self.deps@.len(),
                self.committed@.len() == self.deps@.len(),
                *ds == self.deps@[i as int],
                k <= ds@.len(),
                forall|j: int| 0 <= j < k ==> {
                    let d = #[trigger] ds@[j] as int;
                    d == i || (0 <= d < self.committed@.len() && self.committed@[d])
                },
            decreases ds@.len() - k,
        {
            let d = ds[k];
            if d != i && !(d < self.committed.len() && self.committed[d]) {
                return false;
            }
            k = k + 1;
        }
        true
    }

    /// Marks a started node as committed. A node is committed once: a second commit, or a
    /// commit of a node that was not started, is refused and changes nothing.
    pub fn commit(&mut self, id: usize) -> (r: Result<(), ScheduleError>)
        requires
            old(self).wf(),
        ensures
            final(self).wf(),
            final(self).deps == old(self).deps,
            final(self).started == old(self).started,
            r is Ok <==> (id < old(self).len() && old(self).started@[id as int] && !old(self).committed@[id as int]),
            r is Ok ==> final(self).committed@ == old(self).committed@.update(id as int, true),
            r is Err ==> *final(self) == *old(self),
    {
        if id < self.committed.len() && self.started[id] && !self.committed[id] {
            let ghost c0 = self.committed@;
            self.committed.set(id, true);
            proof {
                assert forall|i: int| 0 <= i < self.len() && #[trigger] self.started@[i]
                    implies deps_done(self.deps@, self.committed@, i) by {
                    assert(deps_done(self.deps@, c0, i));
                    assert forall|k: int| 0 <= k < self.deps@[i]@.len() implies {
                        let d = #[trigger] self.deps@[i]@[k] as int;
                        d == i || (0 <= d < self.committed@.len() && self.committed@[d])
                    } by {
                        let d = self.deps@[i]@[k] as int;
                        if d != i {
                            assert(c0[d]);
                        }
                    }
                }
            }
            Ok(())
        } else {
            Err(ScheduleError::NotInFlight)
        }
    }

    /// Whether every node has been committed: the kind is done.
    pub fn finished(&self) -> (r: bool)
        requires
            self.wf(),
        ensures
            r == self.all_committed(),
    {
        let mut i: usize = 0;
        while i < self.committed.len()
            invariant
                self.wf(),
                i <= self.len(),
                forall|j: int| 0 <= j < i ==> #[trigger] self.committed@[j],
            decreases self.len() - i,
        {
            if !self.committed[i] {
                return false;
            }
            i = i + 1;
        }
        true
    }

    /// Whether some node has been started and not yet committed.
    pub fn in_flight(&self) -> (r: bool)
        requires
            self.wf(),
        ensures
            r == exists|i: int| 0 <= i < self.len() && self.started@[i] && !self.committed@[i],
    {
        let mut i: usize = 0;
        while i < self.committed.len()
            invariant
                self.wf(),
                i <= self.len(),
                forall|j: int| 0 <= j < i ==> !(self.started@[j] && !self.committed@[j]),
            decreases self.len() - i,
        {
            if self.started[i] && !self.committed[i] {
                return true;
            }
            i = i + 1;
        }
        false
    }
}

/// `s` together with every node that a node of `s` depends on directly.
pub open spec fn step(deps: Seq<Vec<usize>>, s: Seq<bool>) -> Seq<bool> {
    Seq::new(s.len(), |i: int| s[i] || exists|j: int| 0 <= j < s.len() && s[j] && #[trigger] deps[j]@.contains(i as usize))
}

/// The nodes reachable from `s` along at most `k` dependency edges.
pub open spec fn reach(deps: Seq<Vec<usize>>, s: Seq<bool>, k: nat) -> Seq<bool>
    decreases k,
{
    if k == 0 {
        s
    } else {
        step(deps, reach(deps, s, (k - 1) as nat))
    }
}

fn step_once(deps: &Vec<Vec<usize>>, cur: &Vec<bool>) -> (r: Vec<bool>)
    requires
        cur@.len() == deps@.len(),
    ensures
        r@ == step(deps@, cur@),
{
    let n = cur.len();
    let mut next: Vec<bool> = Vec::new();
    let mut i: usize = 0;
    while i < n
        invariant
            n == cur@.len(),
            i <= n,
            next@.len() == i,
            forall|q: int| 0 <= q < i ==> next@[q] == cur@[q],
        decreases n - i,
    {
        next.push(cur[i]);
        i = i + 1;
    }
    let mut j: usize = 0;
    while j < n
        invariant
            n == cur@.len(),
            n == deps@.len(),
            j <= n,
            next@.len() == n,
            forall|q: int| 0 <= q < n ==> next@[q] == (cur@[q] || exists|p: int| 0 <= p < j && cur@[p]
                && #[trigger] deps@[p]@.contains(q as usize)),
        decreases n - j,
    {
        if cur[j] {
            let ds = &deps[j];
            let mut k: usize = 0;
            while k < ds.len()
                invariant
                    n == cur@.len(),
                    n == deps@.len(),
                    j < n,
                    cur@[j as int],
                    *ds == deps@[j as int],
                    k <= ds@.len(),
                    next@.len() == n,
                    forall|q: int| 0 <= q < n ==> next@[q] == (cur@[q] || (exists|p: int| 0 <= p < j && cur@[p]
                        && #[trigger] deps@[p]@.contains(q as usize)) || ds@.subrange(0, k as int).contains(q as usize)),
                decreases ds@.len() - k,
            {
                let d = ds[k];
                if d < n {
                    next.set(d, true);
                }
                proof {
                    assert forall|q: int| 0 <= q < n implies (#[trigger] ds@.subrange(0, k + 1).contains(q as usize)
                        <==> (ds@.subrange(0, k as int).contains(q as usize) || d == q as usize)) by {
                        assert(ds@.subrange(0, k + 1) =~= ds@.subrange(0, k as int).push(d));
                        if ds@.subrange(0, k + 1).contains(q as usize) && d != q as usize {
                            let t = choose|t: int| 0 <= t < k + 1 && #[trigger] ds@.subrange(0, k + 1)[t] == q as usize;
                            assert(ds@.subrange(0, k as int)[t] == q as usize);
                        }
                        if ds@.subrange(0, k as int).contains(q as usize) {
                            let t = choose|t: int| 0 <= t < k && #[trigger] ds@.subrange(0, k as int)[t] == q as usize;
                            assert(ds@.subrange(0, k + 1)[t] == q as usize);
                        }
                        if d == q as usize {
                            assert(ds@.subrange(0, k + 1)[k as int] == d);
                        }
                    }
                }
                k = k + 1;
            }
            proof {
                assert(ds@.subrange(0, ds@.len() as int) =~= ds@);
            }
        }
        proof {
            assert forall|q: int| 0 <= q < n implies next@[q] == (cur@[q] || exists|p: int| 0 <= p < j + 1 && cur@[p]
                && #[trigger] deps@[p]@.contains(q as usize)) by {
                if exists|p: int| 0 <= p < j + 1 && cur@[p] && #[trigger] deps@[p]@.contains(q as usize) {
                    let p = choose|p: int| 0 <= p < j + 1 && cur@[p] && #[trigger] deps@[p]@.contains(q as usize);
                    if p < j {
                        assert(exists|p: int| 0 <= p < j && cur@[p] && #[trigger] deps@[p]@.contains(q as usize));
                    }
                }
            }
        }
        j = j + 1;
    }
    proof {
        assert(next@ =~= step(deps@, cur@));
    }
    next
}

/// The nodes reachable from `roots` along dependency edges: `reach` with as many steps as
/// there are nodes, which covers every path without a repeated node.
pub fn closure(deps: &Vec<Vec<usize>>, roots: Vec<bool>) -> (r: Vec<bool>)
    requires
        roots@.len() == deps@.len(),
    ensures
        r@ == reach(deps@, roots@, deps@.len() as nat),
{
    let n = deps.len();
    let mut cur = roots;
    let mut k: usize = 0;
    while k < n
        invariant
            n == deps@.len(),
            k <= n,
            cur@ == reach(deps@, roots@, k as nat),
            cur@.len() == n,
        decreases n - k,
    {
        cur = step_once(deps, &cur);
        k = k + 1;
    }
    cur
}

} // verus!
