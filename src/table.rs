use crate::address::Address;
use vstd::prelude::*;

verus! {

/// The distinct AS paths seen so far for one prefix.
pub struct PrefixPaths {
    pub addr: Address,
    pub paths: Vec<Vec<u32>>,
}

/// Prefixes with the set of AS paths observed for each, one entry per prefix.
pub struct PathTable {
    pub entries: Vec<PrefixPaths>,
}

pub open spec fn paths_view(v: Seq<Vec<u32>>) -> Seq<Seq<u32>> {
    v.map_values(|p: Vec<u32>| p@)
}

impl View for PrefixPaths {
    type V = (Address, Seq<Seq<u32>>);

    open spec fn view(&self) -> (Address, Seq<Seq<u32>>) {
        (self.addr, paths_view(self.paths@))
    }
}

impl View for PathTable {
    type V = Seq<(Address, Seq<Seq<u32>>)>;

    open spec fn view(&self) -> Seq<(Address, Seq<Seq<u32>>)> {
        self.entries@.map_values(|e: PrefixPaths| e@)
    }
}

/// Each prefix stands in one entry, and each entry holds at least one path,
/// with no path twice.
pub open spec fn table_wf(v: Seq<(Address, Seq<Seq<u32>>)>) -> bool {
    &&& forall|i: int, j: int| 0 <= i < v.len() && 0 <= j < v.len() && i != j ==> v[i].0 != v[j].0
    &&& forall|i: int| 0 <= i < v.len() ==> (#[trigger] v[i]).1.len() > 0 && v[i].1.no_duplicates()
}

/// Whether prefix `a` has an entry.
pub open spec fn has_prefix(v: Seq<(Address, Seq<Seq<u32>>)>, a: Address) -> bool {
    exists|i: int| 0 <= i < v.len() && (#[trigger] v[i]).0 == a
}

/// The set of paths recorded for prefix `a` (empty where it has no entry).
pub open spec fn paths_for(v: Seq<(Address, Seq<Seq<u32>>)>, a: Address) -> Set<Seq<u32>> {
    Set::new(|p: Seq<u32>| exists|i: int| 0 <= i < v.len() && (#[trigger] v[i]).0 == a && v[i].1.contains(p))
}

/// The table as a map from prefix to its set of paths.
pub open spec fn table_map(v: Seq<(Address, Seq<Seq<u32>>)>) -> Map<Address, Set<Seq<u32>>> {
    Map::new(|a: Address| has_prefix(v, a), |a: Address| paths_for(v, a))
}

impl PathTable {
    pub open spec fn wf(&self) -> bool {
        table_wf(self@)
    }

    pub fn new() -> (r: PathTable)
        ensures
            r.wf(),
            r@.len() == 0,
    {
        PathTable { entries: Vec::new() }
    }

    /// The index of the entry of prefix `addr`, if there is one.
    pub fn find(&self, addr: &Address) -> (r: Option<usize>)
        ensures
            match r {
                Some(k) => k < self@.len() && self@[k as int].0 == *addr,
                None => !has_prefix(self@, *addr),
            },
    {
        let mut i: usize = 0;
        while i < self.entries.len()
            invariant
                i <= self@.len(),
                self@.len() == self.entries@.len(),
                forall|j: int| 0 <= j < i ==> (#[trigger] self@[j]).0 != *addr,
            decreases self.entries.len() - i,
        {
            if self.entries[i].addr == *addr {
                return Some(i);
            }
            i = i + 1;
        }
        None
    }

    /// Records that `path` was seen for prefix `addr`; a path already there is
    /// not added twice.
    pub fn insert_path(&mut self, addr: Address, path: Vec<u32>)
        requires
            old(self).wf(),
        ensures
            final(self).wf(),
            table_map(final(self)@) == table_map(old(self)@).insert(
                addr,
                paths_for(old(self)@, addr).insert(path@),
            ),
            has_prefix(final(self)@, addr),
            paths_for(final(self)@, addr) == paths_for(old(self)@, addr).insert(path@),
    {
        let ghost v0 = self@;
        let ghost p = path@;
        proof {
            lemma_map_entry(v0, addr);
        }
        match self.find(&addr) {
            Some(k) => {
                let present = contains_path(&self.entries[k].paths, &path);
                if !present {
                    let mut entry = self.entries.remove(k);
                    entry.paths.push(path);
                    self.entries.insert(k, entry);
                    proof {
                        assert(paths_view(entry.paths@) =~= v0[k as int].1.push(p));
                        assert(self@ =~= v0.update(k as int, (addr, v0[k as int].1.push(p))));
                        lemma_update_entry(v0, k as int, p);
                    }
                } else {
                    proof {
                        lemma_present(v0, k as int, p);
                    }
                }
            },
            None => {
                let mut paths: Vec<Vec<u32>> = Vec::new();
                paths.push(path);
                self.entries.push(PrefixPaths { addr, paths });
                proof {
                    assert(paths_view(paths@) =~= seq![p]);
                    assert(self@ =~= v0.push((addr, seq![p])));
                    lemma_push_entry(v0, addr, p);
                }
            },
        }
        proof {
            lemma_map_entry(self@, addr);
        }
    }

    /// Takes the entry of prefix `addr` out of the table and returns its
    /// paths; returns no path where `addr` has no entry.
    pub fn remove_prefix(&mut self, addr: &Address) -> (r: Vec<Vec<u32>>)
        requires
            old(self).wf(),
        ensures
            final(self).wf(),
            table_map(final(self)@) == table_map(old(self)@).remove(*addr),
            paths_view(r@).to_set() == paths_for(old(self)@, *addr),
    {
        let ghost v0 = self@;
        proof {
            lemma_map_entry(v0, *addr);
        }
        match self.find(addr) {
            Some(k) => {
                let entry = self.entries.remove(k);
                proof {
                    assert(self@ =~= v0.remove(k as int));
                    assert(entry@ == v0[k as int]);
                    lemma_remove_entry(v0, k as int);
                }
                entry.paths
            },
            None => {
                proof {
                    assert(table_map(v0).remove(*addr) =~= table_map(v0));
                    assert(paths_view(Seq::<Vec<u32>>::empty()).to_set() =~= Set::<Seq<u32>>::empty());
                }
                Vec::new()
            },
        }
    }

    /// Records every path of `paths` for prefix `addr`. Nothing changes where
    /// `paths` is empty.
    pub fn insert_all(&mut self, addr: Address, paths: Vec<Vec<u32>>)
        requires
            old(self).wf(),
        ensures
            final(self).wf(),
            paths@.len() == 0 ==> final(self)@ == old(self)@,
            paths@.len() > 0 ==> table_map(final(self)@) == table_map(old(self)@).insert(
                addr,
                paths_for(old(self)@, addr).union(paths_view(paths@).to_set()),
            ),
            paths_for(final(self)@, addr) == paths_for(old(self)@, addr).union(paths_view(paths@).to_set()),
    {
        let ghost v0 = self@;
        let ghost pv = paths_view(paths@);
        let mut rest = paths;
        let mut k: usize = 0;
        let n = rest.len();
        while k < n
            invariant
                self.wf(),
                n == pv.len(),
                k <= n,
                rest@.len() == n,
                paths_view(rest@) == pv,
                k == 0 ==> self@ == v0,
                k > 0 ==> table_map(self@) == table_map(v0).insert(
                    addr,
                    paths_for(v0, addr).union(pv.take(k as int).to_set()),
                ),
                paths_for(self@, addr) == paths_for(v0, addr).union(pv.take(k as int).to_set()),
            decreases n - k,
        {
            let p = rest[k].clone();
            proof {
                assert(p@ == pv[k as int]);
                assert(pv.take(k + 1) =~= pv.take(k as int).push(pv[k as int]));
                assert(pv.take(k + 1).to_set() =~= pv.take(k as int).to_set().insert(pv[k as int])) by {
                    let t1 = pv.take(k + 1);
                    let t0 = pv.take(k as int);
                    assert forall|q: Seq<u32>| t1.to_set().contains(q) <==> t0.to_set().insert(
                        pv[k as int],
                    ).contains(q) by {
                        if t1.contains(q) {
                            let j = choose|j: int| 0 <= j < t1.len() && t1[j] == q;
                            if j < k {
                                assert(t0[j] == q);
                            }
                        }
                        if t0.contains(q) {
                            let j = choose|j: int| 0 <= j < t0.len() && t0[j] == q;
                            assert(t1[j] == q);
                        }
                        if q == pv[k as int] {
                            assert(t1[k as int] == q);
                        }
                    }
                }
            }
            let ghost before = self@;
            self.insert_path(addr, p);
            proof {
                let s_old = paths_for(v0, addr).union(pv.take(k as int).to_set());
                let s_new = paths_for(v0, addr).union(pv.take(k + 1).to_set());
                assert(s_old.insert(pv[k as int]) =~= s_new);
                if k > 0 {
                    assert(table_map(v0).insert(addr, s_old).insert(addr, s_new) =~= table_map(v0).insert(
                        addr,
                        s_new,
                    ));
                } else {
                    assert(s_old =~= paths_for(v0, addr));
                }
            }
            k = k + 1;
        }
        proof {
            assert(pv.take(n as int) =~= pv);
            if n == 0 {
                assert(pv.to_set() =~= Set::<Seq<u32>>::empty());
                assert(paths_for(v0, addr).union(pv.to_set()) =~= paths_for(v0, addr));
            }
        }
    }
}

/// Whether `paths` holds a path equal to `path`.
fn contains_path(paths: &Vec<Vec<u32>>, path: &Vec<u32>) -> (r: bool)
    ensures
        r == paths_view(paths@).contains(path@),
{
    let mut i: usize = 0;
    while i < paths.len()
        invariant
            i <= paths@.len(),
            forall|j: int| 0 <= j < i ==> paths@[j]@ != path@,
        decreases paths.len() - i,
    {
        if same_path(&paths[i], path) {
            proof {
                assert(paths_view(paths@)[i as int] == path@);
            }
            return true;
        }
        i = i + 1;
    }
    proof {
        if paths_view(paths@).contains(path@) {
            let j = choose|j: int| 0 <= j < paths_view(paths@).len() && paths_view(paths@)[j] == path@;
            assert(paths@[j]@ == path@);
        }
    }
    false
}

fn same_path(a: &Vec<u32>, b: &Vec<u32>) -> (r: bool)
    ensures
        r == (a@ == b@),
{
    if a.len() != b.len() {
        return false;
    }
    let mut i: usize = 0;
    while i < a.len()
        invariant
            i <= a@.len(),
            a@.len() == b@.len(),
            forall|j: int| 0 <= j < i ==> a@[j] == b@[j],
        decreases a.len() - i,
    {
        if a[i] != b[i] {
            return false;
        }
        i = i + 1;
    }
    proof {
        assert(a@ =~= b@);
    }
    true
}

/// The map of a table holds, for each prefix with an entry, its set of paths.
pub proof fn lemma_map_entry(v: Seq<(Address, Seq<Seq<u32>>)>, a: Address)
    ensures
        table_map(v).dom().contains(a) == has_prefix(v, a),
        has_prefix(v, a) ==> table_map(v)[a] == paths_for(v, a),
        !has_prefix(v, a) ==> paths_for(v, a) == Set::<Seq<u32>>::empty(),
{
    if !has_prefix(v, a) {
        assert(paths_for(v, a) =~= Set::<Seq<u32>>::empty());
    }
}

proof fn lemma_remove_entry(v: Seq<(Address, Seq<Seq<u32>>)>, k: int)
    requires
        table_wf(v),
        0 <= k < v.len(),
    ensures
        table_wf(v.remove(k)),
        table_map(v.remove(k)) == table_map(v).remove(v[k].0),
        v[k].1.to_set() == paths_for(v, v[k].0),
{
    let a = v[k].0;
    let w = v.remove(k);
    assert forall|i: int| 0 <= i < w.len() implies #[trigger] w[i] == (if i < k { v[i] } else { v[i + 1] }) by {}
    assert forall|i: int, j: int| 0 <= i < w.len() && 0 <= j < w.len() && i != j implies w[i].0 != w[j].0 by {
        let x = if i < k { i } else { i + 1 };
        let y = if j < k { j } else { j + 1 };
        assert(w[i] == v[x] && w[j] == v[y]);
    }
    assert forall|i: int| 0 <= i < w.len() implies (#[trigger] w[i]).1.len() > 0 && w[i].1.no_duplicates() by {
        let x = if i < k { i } else { i + 1 };
        assert(w[i] == v[x]);
    }
    assert forall|b: Address| has_prefix(w, b) == (has_prefix(v, b) && b != a) by {
        if has_prefix(w, b) {
            let i = choose|i: int| 0 <= i < w.len() && (#[trigger] w[i]).0 == b;
            let x = if i < k { i } else { i + 1 };
            assert(v[x].0 == b);
            assert(x != k);
        }
        if has_prefix(v, b) && b != a {
            let x = choose|x: int| 0 <= x < v.len() && (#[trigger] v[x]).0 == b;
            let i = if x < k { x } else { x - 1 };
            assert(w[i].0 == b);
        }
    }
    assert forall|b: Address| b != a implies #[trigger] paths_for(w, b) == paths_for(v, b) by {
        assert forall|q: Seq<u32>| paths_for(w, b).contains(q) <==> paths_for(v, b).contains(q) by {
            if paths_for(w, b).contains(q) {
                let i = choose|i: int| 0 <= i < w.len() && (#[trigger] w[i]).0 == b && w[i].1.contains(q);
                let x = if i < k { i } else { i + 1 };
                assert(v[x] == w[i]);
            }
            if paths_for(v, b).contains(q) {
                let x = choose|x: int| 0 <= x < v.len() && (#[trigger] v[x]).0 == b && v[x].1.contains(q);
                let i = if x < k { x } else { x - 1 };
                assert(w[i] == v[x]);
            }
        }
        assert(paths_for(w, b) =~= paths_for(v, b));
    }
    assert forall|q: Seq<u32>| v[k].1.to_set().contains(q) <==> paths_for(v, a).contains(q) by {
        if paths_for(v, a).contains(q) {
            let x = choose|x: int| 0 <= x < v.len() && (#[trigger] v[x]).0 == a && v[x].1.contains(q);
            assert(x == k);
        }
    }
    assert(v[k].1.to_set() =~= paths_for(v, a));
    assert(table_map(w) =~= table_map(v).remove(a));
}

proof fn lemma_present(v: Seq<(Address, Seq<Seq<u32>>)>, k: int, p: Seq<u32>)
    requires
        table_wf(v),
        0 <= k < v.len(),
        v[k].1.contains(p),
    ensures
        table_map(v) == table_map(v).insert(v[k].0, paths_for(v, v[k].0).insert(p)),
{
    let a = v[k].0;
    assert(paths_for(v, a).contains(p));
    assert(paths_for(v, a).insert(p) =~= paths_for(v, a));
    assert(has_prefix(v, a));
    assert(table_map(v) =~= table_map(v).insert(a, paths_for(v, a).insert(p)));
}

proof fn lemma_update_entry(v: Seq<(Address, Seq<Seq<u32>>)>, k: int, p: Seq<u32>)
    requires
        table_wf(v),
        0 <= k < v.len(),
        !v[k].1.contains(p),
    ensures
        table_wf(v.update(k, (v[k].0, v[k].1.push(p)))),
        table_map(v.update(k, (v[k].0, v[k].1.push(p)))) == table_map(v).insert(
            v[k].0,
            paths_for(v, v[k].0).insert(p),
        ),
{
    let a = v[k].0;
    let w = v.update(k, (a, v[k].1.push(p)));
    assert forall|i: int| 0 <= i < w.len() implies (#[trigger] w[i]).1.len() > 0 && w[i].1.no_duplicates() by {
        if i == k {
            assert forall|x: int, y: int| 0 <= x < w[i].1.len() && 0 <= y < w[i].1.len() && x != y implies w[i].1[x]
                != w[i].1[y] by {
                if x < v[k].1.len() && y < v[k].1.len() {
                } else if x == v[k].1.len() {
                    assert(v[k].1[y] == w[i].1[y]);
                } else {
                    assert(v[k].1[x] == w[i].1[x]);
                }
            }
        }
    }
    assert forall|b: Address| has_prefix(w, b) == has_prefix(v, b) by {
        if has_prefix(v, b) {
            let i = choose|i: int| 0 <= i < v.len() && (#[trigger] v[i]).0 == b;
            assert(w[i].0 == b);
        }
        if has_prefix(w, b) {
            let i = choose|i: int| 0 <= i < w.len() && (#[trigger] w[i]).0 == b;
            assert(v[i].0 == b);
        }
    }
    assert forall|b: Address| #[trigger] paths_for(w, b) == (if b == a {
        paths_for(v, a).insert(p)
    } else {
        paths_for(v, b)
    }) by {
        let target = if b == a {
            paths_for(v, a).insert(p)
        } else {
            paths_for(v, b)
        };
        assert forall|q: Seq<u32>| paths_for(w, b).contains(q) <==> target.contains(q) by {
            if paths_for(w, b).contains(q) {
                let i = choose|i: int| 0 <= i < w.len() && (#[trigger] w[i]).0 == b && w[i].1.contains(q);
                if i == k {
                    let j = choose|j: int| 0 <= j < w[i].1.len() && w[i].1[j] == q;
                    if j < v[k].1.len() {
                        assert(v[k].1[j] == q);
                        assert(v[k].1.contains(q));
                    }
                } else {
                    assert(v[i].1.contains(q));
                }
            }
            if target.contains(q) {
                if b == a && q == p {
                    assert(w[k].1[v[k].1.len() as int] == p);
                    assert(w[k].1.contains(p));
                } else {
                    let i = choose|i: int| 0 <= i < v.len() && (#[trigger] v[i]).0 == b && v[i].1.contains(q);
                    let j = choose|j: int| 0 <= j < v[i].1.len() && v[i].1[j] == q;
                    if i == k {
                        assert(w[k].1[j] == q);
                    }
                    assert(w[i].1.contains(q));
                }
            }
        }
        assert(paths_for(w, b) =~= target);
    }
    assert(has_prefix(v, a)) by {
        assert(v[k].0 == a);
    }
    assert(table_map(w) =~= table_map(v).insert(a, paths_for(v, a).insert(p)));
}

proof fn lemma_push_entry(v: Seq<(Address, Seq<Seq<u32>>)>, a: Address, p: Seq<u32>)
    requires
        table_wf(v),
        !has_prefix(v, a),
    ensures
        table_wf(v.push((a, seq![p]))),
        table_map(v.push((a, seq![p]))) == table_map(v).insert(a, paths_for(v, a).insert(p)),
{
    let w = v.push((a, seq![p]));
    assert forall|i: int, j: int| 0 <= i < w.len() && 0 <= j < w.len() && i != j implies w[i].0 != w[j].0 by {
        if i < v.len() && j < v.len() {
            assert(w[i] == v[i] && w[j] == v[j]);
        } else if i < v.len() {
            assert(w[i] == v[i]);
        } else {
            assert(w[j] == v[j]);
        }
    }
    assert forall|i: int| 0 <= i < w.len() implies (#[trigger] w[i]).1.len() > 0 && w[i].1.no_duplicates() by {
        if i < v.len() {
            assert(w[i] == v[i]);
        }
    }
    assert(paths_for(v, a) =~= Set::<Seq<u32>>::empty());
    assert forall|b: Address| has_prefix(w, b) == (has_prefix(v, b) || b == a) by {
        if has_prefix(v, b) {
            let i = choose|i: int| 0 <= i < v.len() && (#[trigger] v[i]).0 == b;
            assert(w[i].0 == b);
        }
        if b == a {
            assert(w[v.len() as int].0 == a);
        }
        if has_prefix(w, b) && b != a {
            let i = choose|i: int| 0 <= i < w.len() && (#[trigger] w[i]).0 == b;
            assert(v[i].0 == b);
        }
    }
    assert forall|b: Address| #[trigger] paths_for(w, b) == (if b == a {
        set![p]
    } else {
        paths_for(v, b)
    }) by {
        let target = if b == a {
            set![p]
        } else {
            paths_for(v, b)
        };
        assert forall|q: Seq<u32>| paths_for(w, b).contains(q) <==> target.contains(q) by {
            if paths_for(w, b).contains(q) {
                let i = choose|i: int| 0 <= i < w.len() && (#[trigger] w[i]).0 == b && w[i].1.contains(q);
                if i < v.len() {
                    assert(v[i] == w[i]);
                } else {
                    let j = choose|j: int| 0 <= j < w[i].1.len() && w[i].1[j] == q;
                }
            }
            if target.contains(q) {
                if b == a {
                    assert(w[v.len() as int].1[0] == p);
                    assert(w[v.len() as int].1.contains(p));
                } else {
                    let i = choose|i: int| 0 <= i < v.len() && (#[trigger] v[i]).0 == b && v[i].1.contains(q);
                    assert(w[i] == v[i]);
                }
            }
        }
        assert(paths_for(w, b) =~= target);
    }
    assert(table_map(w) =~= table_map(v).insert(a, paths_for(v, a).insert(p)));
}

} // verus!
